//! The tunable configuration of a log.
use super::disk::{BLOCK_HEAD_SIZE, LOG_HEAD_SIZE};
use vstd::arithmetic::power2::{
    lemma2_to64, lemma_pow2_adds, lemma_pow2_pos, lemma_pow2_strictly_increases, lemma_pow2_unfold,
    pow2,
};
use vstd::prelude::*;

verus! {

/// Tunable configuration items for a WAL instance.
#[derive(Clone, Copy, Debug, PartialEq, Eq, Structural)]
pub struct TunableConfig {
    /// The size indicator (power of 2) of the ring buffer used by the flushing task to receive log
    /// entries. The default value is 8, which means the size is 256 entries.
    pub ringbuf_size_order: u8,
    /// The threshold size to switch to new data rotation. The default is 32MB.
    pub max_data_rot_size: u64,
    /// The maximum allowed size of a log entry. The default is 1MB.
    pub max_log_entry_size: u32,
    /// The block size. Log data is organized as logical blocks to quicker locate the log entry.
    /// It must be a power of 2, at range of [4KB, 256KB]. The default block size is 64KB.
    pub block_size: u32,
    /// The buffer size to flush the log data in bulk. It should be both a multiple of the block
    /// size and a power of 2, at the range of [block_size, 1MB]. The default is 256KB.
    pub bulk_flush_size: u32,
    /// Number of checks for new log entries before flushing an non-full flushing buffer. The
    /// default value is 5.
    pub checks_bef_flush_log: u32,
    /// Number of checks for new advanced LSN before persisting the advanced LSN. The default value
    /// is 0.
    pub checks_bef_flush_adv_lsn: u32,
}

/// The smallest block size.
pub const MIN_BLOCK_SIZE: u32 = 4096;

/// The largest block size.
pub const MAX_BLOCK_SIZE: u32 = 262144;

/// The largest flushing buffer.
pub const MAX_BULK_SIZE: u32 = 1048576;

/// Whether `n` is a power of two.
pub open spec fn is_pow2(n: nat) -> bool {
    exists|k: nat| n == #[trigger] pow2(k)
}

/// The smallest power of two that is not below `n`.
pub open spec fn next_pow2(n: nat) -> nat
    decreases n,
{
    if n <= 1 {
        1
    } else {
        2 * next_pow2((n + 1) / 2)
    }
}

/// `n`, moved into a range.
pub open spec fn clamped(n: nat, lo: nat, hi: nat) -> nat {
    if n < lo {
        lo
    } else if n > hi {
        hi
    } else {
        n
    }
}

impl TunableConfig {
    /// The default configuration.
    pub open spec fn standard() -> TunableConfig {
        TunableConfig {
            ringbuf_size_order: 8,
            max_data_rot_size: 33554432,
            max_log_entry_size: 1048576,
            block_size: 65536,
            bulk_flush_size: 262144,
            checks_bef_flush_log: 5,
            checks_bef_flush_adv_lsn: 0,
        }
    }

    /// Whether the sizes are what the log can work with.
    pub open spec fn valid(self) -> bool {
        &&& is_pow2(self.block_size as nat)
        &&& MIN_BLOCK_SIZE <= self.block_size <= MAX_BLOCK_SIZE
        &&& is_pow2(self.bulk_flush_size as nat)
        &&& self.block_size <= self.bulk_flush_size <= MAX_BULK_SIZE
        &&& self.bulk_flush_size % self.block_size == 0
    }

    /// Whether the log can work with the sizes at all: a block has room for a header and a record,
    /// and the flushing buffer for whole blocks.
    pub open spec fn usable(self) -> bool {
        &&& BLOCK_HEAD_SIZE + LOG_HEAD_SIZE < self.block_size
        &&& 0 < self.bulk_flush_size
        &&& self.bulk_flush_size % self.block_size == 0
    }

    /// Tells whether the log can work with the sizes at all.
    pub fn is_usable(&self) -> (r: bool)
        ensures
            r == self.usable(),
    {
        BLOCK_HEAD_SIZE + LOG_HEAD_SIZE < self.block_size as usize && 0 < self.bulk_flush_size
            && self.bulk_flush_size % self.block_size == 0
    }

    /// The configuration with its sizes moved to the next proper values.
    pub open spec fn sanitized(self) -> TunableConfig {
        let block_size = clamped(
            next_pow2(self.block_size as nat),
            MIN_BLOCK_SIZE as nat,
            MAX_BLOCK_SIZE as nat,
        );
        let bulk_flush_size = clamped(
            next_pow2(self.bulk_flush_size as nat),
            block_size,
            MAX_BULK_SIZE as nat,
        );
        TunableConfig {
            block_size: block_size as u32,
            bulk_flush_size: bulk_flush_size as u32,
            ..self
        }
    }

    /// The configuration of a log that has none yet.
    pub fn from_opt(config: Option<TunableConfig>) -> (r: Self)
        ensures
            r == match config {
                Some(c) => c.sanitized(),
                None => TunableConfig::standard(),
            },
    {
        match config {
            Some(c) => {
                let mut conf = c;
                conf.sanitize();
                conf
            },
            None => TunableConfig::default(),
        }
    }

    /// Moves the sizes to the next proper values.
    pub fn sanitize(&mut self)
        ensures
            *final(self) == old(self).sanitized(),
    {
        let block_size = clamp(
            next_power_of_two(self.block_size),
            MIN_BLOCK_SIZE as u64,
            MAX_BLOCK_SIZE as u64,
        );
        let bulk_flush_size = clamp(
            next_power_of_two(self.bulk_flush_size),
            block_size,
            MAX_BULK_SIZE as u64,
        );
        self.block_size = block_size as u32;
        self.bulk_flush_size = bulk_flush_size as u32;
    }

    /// The configuration of a log whose persisted one is `persisted`, when `config_arg` is asked
    /// for, and whether it has to be persisted. The persisted block size always stays.
    pub fn init_config(persisted: Option<TunableConfig>, config_arg: Option<TunableConfig>) -> (r: (
        TunableConfig,
        bool,
    ))
        ensures
            match (persisted, config_arg) {
                (None, None) => r == (TunableConfig::standard(), true),
                (None, Some(c)) => r == (c.sanitized(), true),
                (Some(p), None) => r == (p, false),
                (Some(p), Some(c)) => {
                    let conf = (TunableConfig { block_size: p.block_size, ..c }).sanitized();
                    r == (conf, conf != p)
                },
            },
    {
        match persisted {
            None => (TunableConfig::from_opt(config_arg), true),
            Some(p) => match config_arg {
                None => (p, false),
                Some(c) => {
                    let mut conf = c;
                    conf.block_size = p.block_size;
                    conf.sanitize();
                    (conf, conf != p)
                },
            },
        }
    }
}

impl Default for TunableConfig {
    fn default() -> (r: Self)
        ensures
            r == TunableConfig::standard(),
    {
        Self {
            ringbuf_size_order: 8,
            max_data_rot_size: 32 * 1024 * 1024,
            max_log_entry_size: 1024 * 1024,
            block_size: 64 * 1024,
            bulk_flush_size: 256 * 1024,
            checks_bef_flush_log: 5,
            checks_bef_flush_adv_lsn: 0,
        }
    }
}

fn clamp(n: u64, lo: u64, hi: u64) -> (r: u64)
    ensures
        r == clamped(n as nat, lo as nat, hi as nat),
{
    if n < lo {
        lo
    } else if n > hi {
        hi
    } else {
        n
    }
}

fn next_power_of_two(n: u32) -> (p: u64)
    ensures
        p == next_pow2(n as nat),
{
    let mut p: u64 = 1;
    let ghost mut k: nat = 0;
    proof {
        lemma_next_pow2(n as nat);
        lemma2_to64();
    }
    while p < n as u64
        invariant
            1 <= p == pow2(k),
            next_pow2(n as nat) >= p,
            n as nat <= next_pow2(n as nat),
            is_pow2(next_pow2(n as nat)),
        decreases 2 * n - p,
    {
        proof {
            let j = choose|j: nat| next_pow2(n as nat) == #[trigger] pow2(j);
            if j <= k {
                lemma_pow2_grows(j, k);
            }
            lemma_pow2_grows(k + 1, j);
            lemma_pow2_unfold(k + 1);
            k = k + 1;
        }
        p = p * 2;
    }
    proof {
        lemma_next_pow2_least(n as nat, k);
    }
    p
}

proof fn lemma_pow2_grows(j: nat, k: nat)
    requires
        j <= k,
    ensures
        pow2(j) <= pow2(k),
        j < k ==> pow2(j) < pow2(k),
        pow2(j) >= 1,
        pow2(k) % pow2(j) == 0,
{
    let (a, b) = (pow2(j) as int, pow2((k - j) as nat) as int);
    lemma_pow2_pos(j);
    lemma_pow2_adds(j, (k - j) as nat);
    if j < k {
        lemma_pow2_strictly_increases(j, k);
    }
    vstd::arithmetic::div_mod::lemma_mod_multiples_basic(b, a);
    assert(b * a == a * b) by (nonlinear_arith);
}

/// [`next_pow2`] is a power of two that is not below its argument.
proof fn lemma_next_pow2(n: nat)
    ensures
        n <= next_pow2(n),
        is_pow2(next_pow2(n)),
    decreases n,
{
    if n <= 1 {
        lemma2_to64();
        assert(pow2(0) == 1);
    } else {
        let h = (n + 1) / 2;
        lemma_next_pow2(h);
        let k = choose|k: nat| next_pow2(h) == #[trigger] pow2(k);
        lemma_pow2_unfold(k + 1);
        assert(next_pow2(n) == pow2(k + 1));
    }
}

/// [`next_pow2`] is not above any power of two that is not below its argument.
proof fn lemma_next_pow2_least(n: nat, k: nat)
    requires
        n <= pow2(k),
    ensures
        next_pow2(n) <= pow2(k),
    decreases n,
{
    if n <= 1 {
        lemma_pow2_grows(0, k);
    } else {
        if k == 0 {
            lemma2_to64();
        } else {
            lemma_pow2_unfold(k);
            lemma_next_pow2_least((n + 1) / 2, (k - 1) as nat);
        }
    }
}

proof fn lemma_some_powers()
    ensures
        pow2(12) == 4096,
        pow2(16) == 65536,
        pow2(18) == 262144,
        pow2(20) == 1048576,
{
    lemma2_to64();
}

/// Of two powers of two the larger one is a multiple of the smaller one.
proof fn lemma_pow2_divides(a: nat, b: nat)
    requires
        is_pow2(a),
        is_pow2(b),
        a <= b,
    ensures
        b % a == 0,
{
    let j = choose|j: nat| a == #[trigger] pow2(j);
    let k = choose|k: nat| b == #[trigger] pow2(k);
    if j > k {
        lemma_pow2_grows(k, j);
    }
    lemma_pow2_grows(j, k);
}

/// A power of two is the next one to itself.
proof fn lemma_next_pow2_of_pow2(n: nat)
    requires
        is_pow2(n),
    ensures
        next_pow2(n) == n,
{
    let k = choose|k: nat| n == #[trigger] pow2(k);
    lemma_next_pow2_least(n, k);
    lemma_next_pow2(n);
}

/// [`next_pow2`] is the smallest power of two that is not below its argument.
pub proof fn law_next_pow2(n: nat, p: nat)
    requires
        is_pow2(p),
        n <= p,
    ensures
        is_pow2(next_pow2(n)),
        n <= next_pow2(n) <= p,
{
    let k = choose|k: nat| p == #[trigger] pow2(k);
    lemma_next_pow2(n);
    lemma_next_pow2_least(n, k);
}

/// A sanitized configuration is valid, whatever it was before, and the log can work with it.
pub proof fn law_sanitized_is_valid(c: TunableConfig)
    ensures
        c.sanitized().valid(),
        c.sanitized().usable(),
{
    lemma_some_powers();
    lemma_next_pow2(c.block_size as nat);
    lemma_next_pow2(c.bulk_flush_size as nat);
    let s = c.sanitized();
    assert(is_pow2(MIN_BLOCK_SIZE as nat)) by {
        assert(pow2(12) == MIN_BLOCK_SIZE as nat);
    }
    assert(is_pow2(MAX_BLOCK_SIZE as nat)) by {
        assert(pow2(18) == MAX_BLOCK_SIZE as nat);
    }
    assert(is_pow2(MAX_BULK_SIZE as nat)) by {
        assert(pow2(20) == MAX_BULK_SIZE as nat);
    }
    lemma_pow2_divides(s.block_size as nat, s.bulk_flush_size as nat);
}

/// Sanitizing changes nothing of a valid configuration.
pub proof fn law_sanitizing_keeps_valid(c: TunableConfig)
    requires
        c.valid(),
    ensures
        c.sanitized() == c,
{
    lemma_next_pow2_of_pow2(c.block_size as nat);
    lemma_next_pow2_of_pow2(c.bulk_flush_size as nat);
}

/// The default configuration is valid.
pub proof fn law_default_is_valid()
    ensures
        TunableConfig::standard().valid(),
        TunableConfig::standard().usable(),
{
    lemma_some_powers();
    assert(is_pow2(65536)) by {
        assert(pow2(16) == 65536);
    }
    assert(is_pow2(262144)) by {
        assert(pow2(18) == 262144);
    }
}

/// A valid block size that was persisted stays, whatever else is asked for.
pub proof fn law_persisted_block_size_stays(persisted: TunableConfig, asked: TunableConfig)
    requires
        persisted.valid(),
    ensures
        (TunableConfig { block_size: persisted.block_size, ..asked }).sanitized().block_size
            == persisted.block_size,
{
    law_sanitizing_keeps_valid(persisted);
}

/// Sanitizing touches the two sizes only: whatever else was asked for stays, also when a size has to
/// be moved.
pub proof fn law_sanitizing_moves_sizes_only(c: TunableConfig)
    ensures
        c.sanitized().ringbuf_size_order == c.ringbuf_size_order,
        c.sanitized().max_data_rot_size == c.max_data_rot_size,
        c.sanitized().max_log_entry_size == c.max_log_entry_size,
        c.sanitized().checks_bef_flush_log == c.checks_bef_flush_log,
        c.sanitized().checks_bef_flush_adv_lsn == c.checks_bef_flush_adv_lsn,
{
}

/// A block size is moved to the next power of two between 4KB and 256KB: no power of two in that range
/// lies between what was asked for and what it becomes. What is too large becomes the largest one.
pub proof fn law_sanitized_block_size_is_next(c: TunableConfig, k: nat)
    ensures
        is_pow2(c.sanitized().block_size as nat),
        4096 <= c.sanitized().block_size <= 262144,
        c.block_size <= 262144 ==> c.block_size <= c.sanitized().block_size,
        c.block_size > 262144 ==> c.sanitized().block_size == 262144,
        c.block_size <= pow2(k) && 4096 <= pow2(k) ==> c.sanitized().block_size <= pow2(k),
{
    law_sanitized_is_valid(c);
    lemma_some_powers();
    if c.block_size <= 262144 {
        lemma_next_pow2(c.block_size as nat);
        lemma_next_pow2_least(c.block_size as nat, 18);
    } else {
        lemma_next_pow2(c.block_size as nat);
    }
    if c.block_size <= pow2(k) {
        lemma_next_pow2_least(c.block_size as nat, k);
    }
}

/// The size of the flushing buffer is moved to the next power of two between the block size and 1MB:
/// no power of two in that range lies between what was asked for and what it becomes. What is too
/// large becomes the largest one.
pub proof fn law_sanitized_bulk_size_is_next(c: TunableConfig, k: nat)
    ensures
        is_pow2(c.sanitized().bulk_flush_size as nat),
        c.sanitized().block_size <= c.sanitized().bulk_flush_size <= 1048576,
        c.bulk_flush_size <= 1048576 ==> c.bulk_flush_size <= c.sanitized().bulk_flush_size,
        c.bulk_flush_size > 1048576 ==> c.sanitized().bulk_flush_size == 1048576,
        c.bulk_flush_size <= pow2(k) && c.sanitized().block_size <= pow2(k)
            ==> c.sanitized().bulk_flush_size <= pow2(k),
{
    law_sanitized_is_valid(c);
    lemma_some_powers();
    lemma_next_pow2(c.bulk_flush_size as nat);
    if c.bulk_flush_size <= 1048576 {
        lemma_next_pow2_least(c.bulk_flush_size as nat, 20);
    }
    if c.bulk_flush_size <= pow2(k) {
        lemma_next_pow2_least(c.bulk_flush_size as nat, k);
    }
}

/// The sizes are proper exactly if the block size is a power of two between 4KB and 256KB and the size
/// of the flushing buffer is one between the block size and 1MB. Then the log can work with them.
pub proof fn law_valid_sizes(c: TunableConfig)
    ensures
        c.valid() <==> {
            &&& exists|j: nat| c.block_size == #[trigger] pow2(j)
            &&& 4096 <= c.block_size <= 262144
            &&& exists|k: nat| c.bulk_flush_size == #[trigger] pow2(k)
            &&& c.block_size <= c.bulk_flush_size <= 1048576
        },
        c.valid() ==> c.usable(),
{
    if is_pow2(c.block_size as nat) && is_pow2(c.bulk_flush_size as nat) && c.block_size
        <= c.bulk_flush_size {
        lemma_pow2_divides(c.block_size as nat, c.bulk_flush_size as nat);
    }
}

/// The log can work with sizes exactly if a block holds its header and a record with a byte of
/// payload, and the flushing buffer holds whole blocks.
pub proof fn law_usable_sizes(c: TunableConfig)
    ensures
        c.usable() <==> c.block_size >= 53 && exists|n: int|
            n > 0 && c.bulk_flush_size == #[trigger] (n * c.block_size),
{
    let bs = c.block_size as int;
    let size = c.bulk_flush_size as int;
    if bs > 0 {
        if size > 0 && size % bs == 0 {
            vstd::arithmetic::div_mod::lemma_fundamental_div_mod(size, bs);
            let n = size / bs;
            assert(n * bs == size && n > 0) by (nonlinear_arith)
                requires
                    size == bs * n + 0,
                    size > 0,
                    bs > 0,
            ;
        }
        if exists|n: int| n > 0 && size == #[trigger] (n * bs) {
            let n = choose|n: int| n > 0 && size == #[trigger] (n * bs);
            vstd::arithmetic::div_mod::lemma_mod_multiples_basic(n, bs);
            assert(size > 0) by (nonlinear_arith)
                requires
                    size == n * bs,
                    n > 0,
                    bs > 0,
            ;
        }
    }
}

/// By default the ring buffer holds 256 entries, a data rotation is followed by a new one from 32MB on, an
/// entry has at most 1MB, a block 64KB, and the flushing buffer 256KB. What is in the buffer waits for 5
/// checks, and an advanced LSN for none.
pub proof fn law_default_values()
    ensures
        pow2(TunableConfig::standard().ringbuf_size_order as nat) == 256,
        TunableConfig::standard().max_data_rot_size == 32 * 1024 * 1024,
        TunableConfig::standard().max_log_entry_size == 1024 * 1024,
        TunableConfig::standard().block_size == 64 * 1024,
        TunableConfig::standard().bulk_flush_size == 256 * 1024,
        TunableConfig::standard().checks_bef_flush_log == 5,
        TunableConfig::standard().checks_bef_flush_adv_lsn == 0,
{
    lemma_some_powers();
    lemma2_to64();
}

} // verus!
