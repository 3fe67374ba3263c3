//! Topology and environment: the canonical worker-to-hardware-thread pinning
//! map for a symmetric (package, core, PU) topology, and the resolution of
//! the requested worker count against the machine's available parallelism.

#![allow(unused_imports)]

use vstd::prelude::*;

verus! {

/// The hardware thread (PU) that worker slot `x` is bound to, in a symmetric
/// topology of `papma` packages, `coppa` cores per package and `pupco` PUs
/// per core. The ordering fills distinct physical cores of a package before
/// reusing PUs of a core, and packages last, so that low worker indices get
/// the most useful parallelism.
pub open spec fn bind_slot(x: int, papma: int, coppa: int, pupco: int) -> int {
    let puppa = coppa * pupco;
    let package_id = x / puppa;
    let package_offset = x % puppa;
    let core_id = package_offset % coppa;
    let core_offset = package_offset / coppa;
    puppa * package_id + core_id * pupco + core_offset
}

/// The worker count that a request resolves to: an explicit request of at
/// least one wins; a missing or sub-one request falls back to the available
/// hardware threads; the result is never below one.
pub open spec fn resolved_threads(requested: Option<usize>, available: int) -> int {
    match requested {
        Some(v) => if v >= 1 {
            v as int
        } else if available >= 1 {
            available
        } else {
            1
        },
        None => if available >= 1 {
            available
        } else {
            1
        },
    }
}

/// Hardware topology and environment facts read once at startup: how many
/// hardware threads exist, where each pool worker is pinned, and how many
/// workers the pool will hold.
pub struct SystemObject {
    /// Worker index to hardware thread (PU) mapping for pinning
    pub cpu_bind_map: Vec<usize>,
    /// Total number of hardware threads (PUs) on the machine
    pub available_hwthreads: usize,
    /// Number of threads to spawn for the worker pool
    pub max_num_threads: usize,
}

impl SystemObject {
    /// The pinning map: entry `i` is the hardware thread worker `i` binds to.
    pub open spec fn bind_map(&self) -> Seq<usize> {
        self.cpu_bind_map@
    }

    /// One map entry per hardware thread, each a valid hardware thread index,
    /// and at least one hardware thread and one worker.
    pub open spec fn wf(&self) -> bool {
        &&& self.bind_map().len() == self.available_hwthreads
        &&& self.available_hwthreads >= 1
        &&& self.max_num_threads >= 1
        &&& forall|i: int|
            0 <= i < self.bind_map().len() ==> #[trigger] self.bind_map()[i]
                < self.available_hwthreads
    }

    /// Builds the system description for a symmetric topology of `papma`
    /// packages, `coppa` cores per package and `pupco` PUs per core, with
    /// `requested` the worker-count override read from the environment, if
    /// any.
    pub fn new(papma: usize, coppa: usize, pupco: usize, requested: Option<usize>) -> (s:
        SystemObject)
        requires
            1 <= papma,
            1 <= coppa,
            1 <= pupco,
            papma * coppa * pupco <= usize::MAX,
        ensures
            s.wf(),
            s.available_hwthreads == papma * coppa * pupco,
            forall|x: int|
                0 <= x < s.available_hwthreads ==> #[trigger] s.bind_map()[x] == bind_slot(
                    x,
                    papma as int,
                    coppa as int,
                    pupco as int,
                ),
            s.max_num_threads == resolved_threads(requested, papma * coppa * pupco),
    {
        proof {
            assert(coppa * pupco <= papma * (coppa * pupco) && 1 <= coppa * pupco && papma * (
            coppa * pupco) == papma * coppa * pupco) by (nonlinear_arith)
                requires
                    1 <= papma && 1 <= coppa && 1 <= pupco,
            ;
        }
        let puppa: usize = coppa * pupco;
        let total: usize = papma * puppa;
        let cpu_bind_map = build_bind_map(papma, coppa, pupco);
        let max_num_threads = resolve_max_threads(requested, total);
        SystemObject { cpu_bind_map, available_hwthreads: total, max_num_threads }
    }

    /// The system description of the running machine, with the worker count
    /// defaulted to the available hardware threads. The probed parallelism
    /// carries no package or SMT structure, so the topology is taken as one
    /// package of single-PU cores and the pinning map is the identity.
    pub fn get_instance() -> (s: SystemObject)
        ensures
            s.wf(),
            s.max_num_threads == s.available_hwthreads,
            forall|x: int|
                0 <= x < s.available_hwthreads ==> #[trigger] s.bind_map()[x] == x,
    {
        let probed = probe_hwthreads();
        let cores: usize = if probed >= 1 {
            probed
        } else {
            1
        };
        let s = SystemObject::new(1, cores, 1, None);
        proof {
            assert forall|x: int| 0 <= x < s.available_hwthreads implies #[trigger] s.bind_map()[x]
                == x by {
                assert(s.bind_map()[x] == bind_slot(x, 1, cores as int, 1));
                assert(x / (cores as int * 1) == 0 && x % (cores as int * 1) == x && x % (
                cores as int) == x && x / (cores as int) == 0) by (nonlinear_arith)
                    requires
                        0 <= x < cores as int,
                ;
            }
        }
        s
    }

    /// The hardware thread that the worker with index `tid` is pinned to:
    /// entry `tid mod available_hwthreads` of the pinning map.
    pub fn bind_target(&self, tid: usize) -> (hw: usize)
        requires
            self.wf(),
        ensures
            hw == self.bind_map()[(tid % self.available_hwthreads) as int],
            hw < self.available_hwthreads,
    {
        self.cpu_bind_map[tid % self.available_hwthreads]
    }
}

/// Computes the pinning map for a symmetric topology: one entry per hardware
/// thread, entry `x` being `bind_slot(x, ..)`.
fn build_bind_map(papma: usize, coppa: usize, pupco: usize) -> (map: Vec<usize>)
    requires
        1 <= papma,
        1 <= coppa,
        1 <= pupco,
        papma * coppa * pupco <= usize::MAX,
    ensures
        map@.len() == papma * coppa * pupco,
        forall|x: int|
            0 <= x < map@.len() ==> #[trigger] map@[x] == bind_slot(
                x,
                papma as int,
                coppa as int,
                pupco as int,
            ),
        forall|x: int| 0 <= x < map@.len() ==> #[trigger] map@[x] < papma * coppa * pupco,
{
    proof {
        assert(coppa * pupco <= papma * (coppa * pupco) && 1 <= coppa * pupco && papma * (coppa
        * pupco) == papma * coppa * pupco) by (nonlinear_arith)
            requires
                1 <= papma && 1 <= coppa && 1 <= pupco,
        ;
    }
    let puppa: usize = coppa * pupco;
    let total: usize = papma * puppa;
    let mut map: Vec<usize> = Vec::new();
    let mut x: usize = 0;
    while x < total
        invariant
            0 <= x <= total,
            1 <= papma && 1 <= coppa && 1 <= pupco,
            puppa == coppa * pupco,
            total == papma * puppa,
            total == papma * coppa * pupco,
            total <= usize::MAX,
            map@.len() == x,
            forall|i: int|
                0 <= i < x ==> #[trigger] map@[i] == bind_slot(
                    i,
                    papma as int,
                    coppa as int,
                    pupco as int,
                ),
            forall|i: int| 0 <= i < x ==> #[trigger] map@[i] < total,
        decreases total - x,
    {
        let package_id: usize = x / puppa;
        let package_offset: usize = x % puppa;
        let core_id: usize = package_offset % coppa;
        let core_offset: usize = package_offset / coppa;
        proof {
            assert(package_id < papma && core_id < coppa && core_offset < pupco) by (
            nonlinear_arith)
                requires
                    0 <= x < total,
                    1 <= papma && 1 <= coppa && 1 <= pupco,
                    puppa == coppa * pupco,
                    total == papma * puppa,
                    package_id == x / puppa,
                    package_offset == x % puppa,
                    core_id == package_offset % coppa,
                    core_offset == package_offset / coppa,
            ;
            assert(puppa * package_id + core_id * pupco + core_offset < total) by (
            nonlinear_arith)
                requires
                    package_id < papma && core_id < coppa && core_offset < pupco,
                    1 <= papma && 1 <= coppa && 1 <= pupco,
                    puppa == coppa * pupco,
                    total == papma * puppa,
            ;
        }
        let slot: usize = puppa * package_id + core_id * pupco + core_offset;
        map.push(slot);
        x = x + 1;
    }
    map
}

/// The worker count that `requested` resolves to against `available`
/// hardware threads: the request if it is at least one, else the available
/// count, and never below one.
pub fn resolve_max_threads(requested: Option<usize>, available: usize) -> (n: usize)
    ensures
        n == resolved_threads(requested, available as int),
        n >= 1,
{
    let fallback: usize = if available >= 1 {
        available
    } else {
        1
    };
    match requested {
        Some(v) => if v >= 1 {
            v
        } else {
            fallback
        },
        None => fallback,
    }
}



/// Distinct worker slots bind to distinct hardware threads: `bind_slot` is
/// injective on the hardware-thread range. Together with the constructor's
/// clauses — one map entry per hardware thread, each equal to `bind_slot`
/// and below `available_hwthreads` — this makes the pinning map a
/// permutation of the hardware threads.
pub proof fn lemma_bind_slot_injective(x1: int, x2: int, papma: int, coppa: int, pupco: int)
    requires
        1 <= papma,
        1 <= coppa,
        1 <= pupco,
        0 <= x1 < papma * coppa * pupco,
        0 <= x2 < papma * coppa * pupco,
        bind_slot(x1, papma, coppa, pupco) == bind_slot(x2, papma, coppa, pupco),
    ensures
        x1 == x2,
{
    lemma_bind_slot_digits(x1, papma, coppa, pupco);
    lemma_bind_slot_digits(x2, papma, coppa, pupco);
}

/// The digits of a worker slot — its package, core and PU offsets — are
/// recoverable from the hardware thread it binds to, and the slot from its
/// digits; so the slot is a function of its bind target.
proof fn lemma_bind_slot_digits(x: int, papma: int, coppa: int, pupco: int)
    requires
        1 <= papma,
        1 <= coppa,
        1 <= pupco,
        0 <= x < papma * coppa * pupco,
    ensures
        ({
            let puppa = coppa * pupco;
            let slot = bind_slot(x, papma, coppa, pupco);
            let core_id = slot % puppa / pupco;
            let core_offset = slot % puppa % pupco;
            x == puppa * (slot / puppa) + coppa * core_offset + core_id
        }),
{
    let puppa = coppa * pupco;
    let total = papma * puppa;
    let slot = bind_slot(x, papma, coppa, pupco);
    let package_id = x / puppa;
    let package_offset = x % puppa;
    let core_id = package_offset % coppa;
    let core_offset = package_offset / coppa;
    assert(1 <= puppa && total == papma * coppa * pupco) by (nonlinear_arith)
        requires
            1 <= papma && 1 <= coppa && 1 <= pupco && puppa == coppa * pupco && total == papma
                * puppa,
    ;
    vstd::arithmetic::div_mod::lemma_fundamental_div_mod(x, puppa);
    vstd::arithmetic::div_mod::lemma_mod_division_less_than_divisor(x, puppa);
    vstd::arithmetic::div_mod::lemma_fundamental_div_mod(package_offset, coppa);
    vstd::arithmetic::div_mod::lemma_mod_division_less_than_divisor(package_offset, coppa);
    // the offset's quotient by cores is below the PUs per core
    assert(0 <= core_offset < pupco) by (nonlinear_arith)
        requires
            0 <= package_offset < puppa,
            puppa == coppa * pupco,
            1 <= coppa && 1 <= pupco,
            core_offset == package_offset / coppa,
            package_offset == coppa * core_offset + core_id,
            0 <= core_id < coppa,
    ;
    // the within-package part of the slot stays below a package's PU count
    let inner = core_id * pupco + core_offset;
    assert(0 <= inner < puppa) by (nonlinear_arith)
        requires
            inner == core_id * pupco + core_offset,
            0 <= core_id < coppa,
            0 <= core_offset < pupco,
            puppa == coppa * pupco,
    ;
    vstd::arithmetic::div_mod::lemma_fundamental_div_mod_converse(
        slot,
        puppa,
        package_id,
        inner,
    );
    vstd::arithmetic::div_mod::lemma_fundamental_div_mod_converse(
        inner,
        pupco,
        core_id,
        core_offset,
    );
}

/// The value of a run of decimal digit bytes, most significant first.
pub open spec fn dec_value(s: Seq<u8>) -> int
    decreases s.len(),
{
    if s.len() == 0 {
        0
    } else {
        dec_value(s.drop_last()) * 10 + (s.last() - 0x30)
    }
}

/// Every byte is a decimal digit.
pub open spec fn all_digits(s: Seq<u8>) -> bool {
    forall|i: int| 0 <= i < s.len() ==> 0x30 <= #[trigger] s[i] <= 0x39
}

/// What a worker-count override denotes: one or more decimal digits, with
/// an optional leading plus sign, valued when the number fits a `usize`;
/// anything else denotes nothing.
pub open spec fn thread_count_of(s: Seq<u8>) -> Option<usize> {
    let digits = if s.len() > 0 && s[0] == 0x2b {
        s.drop_first()
    } else {
        s
    };
    if digits.len() > 0 && all_digits(digits) && dec_value(digits) <= usize::MAX {
        Some(dec_value(digits) as usize)
    } else {
        None
    }
}

/// Parses the worker-count override read from the environment: the number
/// it denotes, or `None` for an empty, malformed or oversized value, which
/// the caller lets fall back to the available hardware threads.
pub fn parse_thread_count(s: &[u8]) -> (r: Option<usize>)
    ensures
        r == thread_count_of(s@),
{
    let ghost sv = s@;
    let n = s.len();
    let mut start: usize = 0;
    if n > 0 && *vstd::slice::slice_index_get(s, 0) == 0x2b {
        start = 1;
    }
    let ghost digits = if sv.len() > 0 && sv[0] == 0x2b {
        sv.drop_first()
    } else {
        sv
    };
    proof {
        assert(digits =~= sv.subrange(start as int, n as int));
    }
    if n == start {
        return None;
    }
    let mut acc: usize = 0;
    let mut i: usize = start;
    while i < n
        invariant
            start <= i <= n,
            n == sv.len(),
            sv == s@,
            digits == (if sv.len() > 0 && sv[0] == 0x2b {
                sv.drop_first()
            } else {
                sv
            }),
            digits =~= sv.subrange(start as int, n as int),
            all_digits(sv.subrange(start as int, i as int)),
            acc == dec_value(sv.subrange(start as int, i as int)),
        decreases n - i,
    {
        let b = *vstd::slice::slice_index_get(s, i);
        proof {
            assert(digits[i - start] == sv[i as int]);
        }
        if b < 0x30 || b > 0x39 {
            proof {
                assert(0 <= i - start < digits.len());
                assert(!(0x30 <= digits[i - start] && digits[i - start] <= 0x39));
                assert(!all_digits(digits));
                assert(thread_count_of(sv) == None::<usize>);
            }
            return None;
        }
        let d = (b - 0x30) as usize;
        proof {
            assert(sv.subrange(start as int, i + 1 as int).drop_last() =~= sv.subrange(
                start as int,
                i as int,
            ));
            assert(sv.subrange(start as int, i + 1 as int).last() == sv[i as int]);
        }
        if acc > (usize::MAX - d) / 10 {
            proof {
                lemma_mul_overflow_bound(acc as int, d as int);
                if all_digits(digits) {
                    lemma_dec_value_prefix_le(digits, i + 1 - start as int);
                    assert(digits.take(i + 1 - start as int) =~= sv.subrange(
                        start as int,
                        i + 1 as int,
                    ));
                    assert(dec_value(sv.subrange(start as int, i + 1 as int)) == acc * 10 + d);
                    assert(dec_value(digits) > usize::MAX);
                }
                assert(thread_count_of(sv) == None::<usize>);
            }
            return None;
        }
        proof {
            lemma_mul_no_overflow_bound(acc as int, d as int);
        }
        acc = acc * 10 + d;
        i = i + 1;
    }
    proof {
        assert(sv.subrange(start as int, n as int) =~= digits);
    }
    Some(acc)
}

/// Ten times a value above the overflow threshold, plus the digit, exceeds
/// the largest `usize`.
proof fn lemma_mul_overflow_bound(acc: int, d: int)
    requires
        0 <= d <= 9,
        0 <= acc,
        acc > (usize::MAX - d) / 10,
    ensures
        acc * 10 + d > usize::MAX,
{
    let m = usize::MAX as int;
    vstd::arithmetic::div_mod::lemma_fundamental_div_mod(m - d, 10);
    vstd::arithmetic::div_mod::lemma_mod_division_less_than_divisor(m - d, 10);
    let q = (m - d) / 10;
    assert(acc * 10 >= (q + 1) * 10) by (nonlinear_arith)
        requires
            acc >= q + 1,
    ;
    assert((q + 1) * 10 == q * 10 + 10) by (nonlinear_arith);
}

/// Ten times a value at or under the overflow threshold, plus the digit,
/// still fits a `usize`.
proof fn lemma_mul_no_overflow_bound(acc: int, d: int)
    requires
        0 <= d <= 9,
        0 <= acc,
        acc <= (usize::MAX - d) / 10,
    ensures
        acc * 10 + d <= usize::MAX,
{
    let m = usize::MAX as int;
    vstd::arithmetic::div_mod::lemma_fundamental_div_mod(m - d, 10);
    vstd::arithmetic::div_mod::lemma_mod_division_less_than_divisor(m - d, 10);
    let q = (m - d) / 10;
    assert(acc * 10 <= q * 10) by (nonlinear_arith)
        requires
            acc <= q,
    ;
}

/// The value of a digit string is never negative.
proof fn lemma_dec_value_nonneg(s: Seq<u8>)
    requires
        all_digits(s),
    ensures
        dec_value(s) >= 0,
    decreases s.len(),
{
    if s.len() > 0 {
        assert(all_digits(s.drop_last()));
        lemma_dec_value_nonneg(s.drop_last());
    }
}

/// The value of a digit string is at least the value of any of its
/// prefixes: appending digits never shrinks the number.
proof fn lemma_dec_value_prefix_le(s: Seq<u8>, i: int)
    requires
        all_digits(s),
        0 <= i <= s.len(),
    ensures
        dec_value(s.take(i)) <= dec_value(s),
    decreases s.len(),
{
    if i < s.len() {
        let s0 = s.drop_last();
        assert(all_digits(s0));
        assert(s.take(i) =~= s0.take(i));
        lemma_dec_value_prefix_le(s0, i);
        lemma_dec_value_nonneg(s0);
        assert(0x30 <= s[s.len() - 1]);
        assert(dec_value(s) == dec_value(s0) * 10 + (s.last() - 0x30));
    } else {
        assert(s.take(i) =~= s);
    }
}

/// Relies on `rayon::current_num_threads`: the worker count of that
/// runtime's current pool, which from a non-worker thread is its global
/// pool's count, set from the machine's available parallelism when nothing
/// overrides it.
#[verifier::external_body]
fn probe_hwthreads() -> (n: usize) {
    rayon::current_num_threads()
}

} // verus!
