//! Segment names and their order: a flushed segment is named by the Unix
//! time `T` of its flush, a compacted one `T_G` with generation `G`; newer
//! means larger `(T, G)`, with `G` taken as 0 when absent.
use vstd::prelude::*;
use vstd::slice::slice_subrange;
use vstd::string::{StringExecFns, StringSliceAdditionalSpecFns};
use vstd::utf8::{encode_utf8, is_ascii_chars, is_ascii_chars_encode_utf8};

verus! {

/// Which segment a stem names.
#[derive(Debug, Clone, Copy, PartialEq, Eq, Structural)]
pub struct SegmentId {
    pub time: u64,
    pub generation: u64,
}

/// An ASCII digit.
pub open spec fn is_digit(b: u8) -> bool {
    48 <= b <= 57
}

/// One or more ASCII digits.
pub open spec fn all_digits(s: Seq<u8>) -> bool {
    &&& s.len() >= 1
    &&& forall|i: int| 0 <= i < s.len() ==> is_digit(#[trigger] s[i])
}

/// The number that a string of decimal digits writes.
pub open spec fn decimal_value(s: Seq<u8>) -> nat
    decreases s.len(),
{
    if s.len() == 0 {
        0
    } else {
        decimal_value(s.drop_last()) * 10 + (s.last() - 48) as nat
    }
}

/// The `(T, G)` that a stem names: `T` alone, or `T_G`.
pub open spec fn stem_id(s: Seq<u8>) -> Option<(nat, nat)> {
    if all_digits(s) {
        Some((decimal_value(s), 0))
    } else if exists|u: int|
        0 <= u < s.len() && s[u] == 95 && all_digits(#[trigger] s.take(u)) && all_digits(
            s.skip(u + 1),
        ) {
        let u = choose|u: int|
            0 <= u < s.len() && s[u] == 95 && all_digits(#[trigger] s.take(u)) && all_digits(
                s.skip(u + 1),
            );
        Some((decimal_value(s.take(u)), decimal_value(s.skip(u + 1))))
    } else {
        None
    }
}

/// `a` is newer than `b`.
pub open spec fn newer(a: SegmentId, b: SegmentId) -> bool {
    a.time > b.time || (a.time == b.time && a.generation > b.generation)
}

/// Ordered newest first.
pub open spec fn newest_first(s: Seq<SegmentId>) -> bool {
    forall|i: int, j: int| 0 <= i < j < s.len() ==> !newer(#[trigger] s[j], #[trigger] s[i])
}

proof fn lemma_prefix_value(s: Seq<u8>, k: int)
    requires
        0 <= k <= s.len(),
    ensures
        decimal_value(s.take(k)) <= decimal_value(s),
    decreases s.len(),
{
    if k < s.len() {
        lemma_prefix_value(s.drop_last(), k);
        assert(s.drop_last().take(k) =~= s.take(k));
    } else {
        assert(s.take(k) =~= s);
    }
}

/// Reads a string of decimal digits that fits in 64 bits.
pub fn parse_decimal(b: &[u8]) -> (r: Option<u64>)
    ensures
        r is Some <==> all_digits(b@) && decimal_value(b@) <= u64::MAX,
        r is Some ==> r.unwrap() as nat == decimal_value(b@),
{
    if b.len() == 0 {
        return None;
    }
    let mut acc: u64 = 0;
    let mut i: usize = 0;
    proof {
        assert(b@.take(0) =~= Seq::<u8>::empty());
    }
    while i < b.len()
        invariant
            i <= b@.len(),
            b@.len() >= 1,
            forall|j: int| 0 <= j < i ==> is_digit(#[trigger] b@[j]),
            acc as nat == decimal_value(b@.take(i as int)),
        decreases b@.len() - i,
    {
        let c = b[i];
        if c < 48 || c > 57 {
            return None;
        }
        let d = (c - 48) as u64;
        proof {
            assert(b@.take(i as int + 1).drop_last() =~= b@.take(i as int));
            assert(b@.take(i as int + 1).last() == c);
        }
        if acc > (u64::MAX - d) / 10 {
            proof {
                let m = u64::MAX as int - d as int;
                assert(acc as int * 10 + d as int > u64::MAX) by (nonlinear_arith)
                    requires
                        acc as int > m / 10,
                        m == u64::MAX as int - d as int,
                        0 <= d <= 9,
                ;
                if all_digits(b@) {
                    lemma_prefix_value(b@, i as int + 1);
                }
            }
            return None;
        }
        proof {
            let m = u64::MAX as int - d as int;
            assert(acc as int * 10 + d as int <= u64::MAX) by (nonlinear_arith)
                requires
                    acc as int <= m / 10,
                    m == u64::MAX as int - d as int,
                    0 <= d <= 9,
            ;
        }
        acc = acc * 10 + d;
        i = i + 1;
    }
    proof {
        assert(b@.take(i as int) =~= b@);
    }
    Some(acc)
}

/// Reads a segment stem, `T` or `T_G`.
pub fn parse_stem(stem: &str) -> (r: Option<SegmentId>)
    ensures
        r is Some <==> stem_id(stem.spec_bytes()) is Some && stem_id(stem.spec_bytes()).unwrap().0
            <= u64::MAX && stem_id(stem.spec_bytes()).unwrap().1 <= u64::MAX,
        r is Some ==> r.unwrap().time as nat == stem_id(stem.spec_bytes()).unwrap().0
            && r.unwrap().generation as nat == stem_id(stem.spec_bytes()).unwrap().1,
{
    let b = stem.as_bytes();
    let mut u: usize = 0;
    while u < b.len() && b[u] != 95
        invariant
            u <= b@.len(),
            forall|j: int| 0 <= j < u ==> #[trigger] b@[j] != 95,
        decreases b@.len() - u,
    {
        u = u + 1;
    }
    if u == b.len() {
        proof {
            if exists|v: int|
                0 <= v < b@.len() && b@[v] == 95 && all_digits(#[trigger] b@.take(v))
                    && all_digits(b@.skip(v + 1)) {
                let v = choose|v: int|
                    0 <= v < b@.len() && b@[v] == 95 && all_digits(#[trigger] b@.take(v))
                        && all_digits(b@.skip(v + 1));
                assert(b@[v] != 95);
            }
        }
        match parse_decimal(b) {
            Some(t) => Some(SegmentId { time: t, generation: 0 }),
            None => None,
        }
    } else {
        let head = slice_subrange(b, 0, u);
        let tail = slice_subrange(b, u + 1, b.len());
        proof {
            assert(head@ =~= b@.take(u as int));
            assert(tail@ =~= b@.skip(u as int + 1));
            assert(!all_digits(b@)) by {
                assert(!is_digit(b@[u as int]));
            }
            assert forall|v: int|
                0 <= v < b@.len() && b@[v] == 95 && all_digits(#[trigger] b@.take(v))
                    && all_digits(b@.skip(v + 1)) implies v == u by {
                if v > u {
                    assert(b@.take(v)[u as int] == b@[u as int]);
                }
            }
        }
        match (parse_decimal(head), parse_decimal(tail)) {
            (Some(t), Some(g)) => Some(SegmentId { time: t, generation: g }),
            _ => None,
        }
    }
}

/// The character of one decimal digit.
pub open spec fn digit_char(d: nat) -> char {
    if d == 0 {
        '0'
    } else if d == 1 {
        '1'
    } else if d == 2 {
        '2'
    } else if d == 3 {
        '3'
    } else if d == 4 {
        '4'
    } else if d == 5 {
        '5'
    } else if d == 6 {
        '6'
    } else if d == 7 {
        '7'
    } else if d == 8 {
        '8'
    } else {
        '9'
    }
}

/// The decimal writing of `n`, without leading zeros.
pub open spec fn decimal_chars(n: nat) -> Seq<char>
    decreases n,
{
    if n < 10 {
        seq![digit_char(n)]
    } else {
        decimal_chars(n / 10).push(digit_char(n % 10))
    }
}

/// The stem of a segment: `T`, or `T_G` for a generation above 0.
pub open spec fn stem_chars(id: SegmentId) -> Seq<char> {
    if id.generation == 0 {
        decimal_chars(id.time as nat)
    } else {
        decimal_chars(id.time as nat) + seq!['_'] + decimal_chars(id.generation as nat)
    }
}

proof fn lemma_decimal_chars(n: nat)
    ensures
        is_ascii_chars(decimal_chars(n)),
        all_digits(encode_utf8(decimal_chars(n))),
        decimal_value(encode_utf8(decimal_chars(n))) == n,
    decreases n,
{
    let c = decimal_chars(n);
    let d = n % 10;
    assert(digit_char(d) as u8 == 48 + d && '\0' <= digit_char(d) <= '\u{7f}');
    if n >= 10 {
        lemma_decimal_chars(n / 10);
        let p = decimal_chars(n / 10);
        assert(c == p.push(digit_char(d)));
        assert(is_ascii_chars(c)) by {
            assert forall|i| 0 <= i < c.len() implies '\0' <= #[trigger] c[i] <= '\u{7f}' by {
                if i < p.len() {
                    assert(c[i] == p[i]);
                }
            }
        }
    } else {
        assert(is_ascii_chars(c));
    }
    is_ascii_chars_encode_utf8(c);
    let b = encode_utf8(c);
    assert forall|i: int| 0 <= i < b.len() implies is_digit(#[trigger] b[i]) by {
        assert(b[i] == c[i] as u8);
        if n >= 10 {
            let p = decimal_chars(n / 10);
            if i < p.len() {
                is_ascii_chars_encode_utf8(p);
                assert(c[i] == p[i]);
                assert(encode_utf8(p)[i] == p[i] as u8);
            }
        }
    }
    assert(b.len() == c.len() && b.len() > 0);
    assert(c.last() == digit_char(d));
    assert(b[b.len() - 1] == c[c.len() - 1] as u8);
    assert(b.last() == 48 + d);
    if n >= 10 {
        let p = decimal_chars(n / 10);
        is_ascii_chars_encode_utf8(p);
        assert(b.drop_last() =~= encode_utf8(p)) by {
            assert forall|i: int| 0 <= i < p.len() implies b.drop_last()[i] == encode_utf8(p)[i] by {
                assert(c[i] == p[i]);
            }
        }
        assert(decimal_value(b.drop_last()) == n / 10);
        assert(decimal_value(b) == decimal_value(b.drop_last()) * 10 + (b.last() - 48) as nat);
        assert(n == (n / 10) * 10 + d) by (nonlinear_arith)
            requires
                d == n % 10,
        ;
    } else {
        assert(b.drop_last() =~= Seq::<u8>::empty());
        assert(decimal_value(b.drop_last()) == 0);
        assert(decimal_value(b) == decimal_value(b.drop_last()) * 10 + (b.last() - 48) as nat);
    }
}

/// Reading back a written stem gives the segment it names.
pub proof fn lemma_stem_round_trip(id: SegmentId)
    ensures
        stem_id(encode_utf8(stem_chars(id))) == Some((id.time as nat, id.generation as nat)),
{
    let t = decimal_chars(id.time as nat);
    lemma_decimal_chars(id.time as nat);
    if id.generation != 0 {
        let g = decimal_chars(id.generation as nat);
        lemma_decimal_chars(id.generation as nat);
        let c = t + seq!['_'] + g;
        assert(is_ascii_chars(c)) by {
            assert forall|i| 0 <= i < c.len() implies '\0' <= #[trigger] c[i] <= '\u{7f}' by {
                if i < t.len() {
                    assert(c[i] == t[i]);
                } else if i > t.len() {
                    assert(c[i] == g[i - t.len() - 1]);
                }
            }
        }
        is_ascii_chars_encode_utf8(c);
        is_ascii_chars_encode_utf8(t);
        is_ascii_chars_encode_utf8(g);
        let b = encode_utf8(c);
        let u = t.len() as int;
        assert(b.take(u) =~= encode_utf8(t)) by {
            assert forall|i: int| 0 <= i < u implies b.take(u)[i] == encode_utf8(t)[i] by {
                assert(c[i] == t[i]);
            }
        }
        assert(b.skip(u + 1) =~= encode_utf8(g)) by {
            assert forall|i: int| 0 <= i < g.len() implies b.skip(u + 1)[i] == encode_utf8(g)[i] by {
                assert(c[u + 1 + i] == g[i]);
            }
        }
        assert(b[u] == 95) by {
            assert(c[u] == '_');
        }
        assert(!all_digits(b)) by {
            assert(!is_digit(b[u]));
        }
        assert(0 <= u < b.len() && b[u] == 95 && all_digits(b.take(u)) && all_digits(b.skip(u + 1)));
        assert forall|v: int|
            0 <= v < b.len() && b[v] == 95 && all_digits(#[trigger] b.take(v)) && all_digits(
                b.skip(v + 1),
            ) implies v == u by {
            if v > u {
                assert(b.take(v)[u] == b[u]);
            } else if v < u {
                assert(b.take(u)[v] == b[v]);
            }
        }
    }
}

/// The decimal writing of `n` appended to `s`.
fn push_decimal(s: String, n: u64) -> (r: String)
    ensures
        r@ == s@ + decimal_chars(n as nat),
    decreases n,
{
    let ghost s0 = s@;
    let mut s = s;
    if n >= 10 {
        s = push_decimal(s, n / 10);
    }
    let d = n % 10;
    let digit = if d == 0 {
        "0"
    } else if d == 1 {
        "1"
    } else if d == 2 {
        "2"
    } else if d == 3 {
        "3"
    } else if d == 4 {
        "4"
    } else if d == 5 {
        "5"
    } else if d == 6 {
        "6"
    } else if d == 7 {
        "7"
    } else if d == 8 {
        "8"
    } else {
        "9"
    };
    proof {
        reveal_strlit("0");
        reveal_strlit("1");
        reveal_strlit("2");
        reveal_strlit("3");
        reveal_strlit("4");
        reveal_strlit("5");
        reveal_strlit("6");
        reveal_strlit("7");
        reveal_strlit("8");
        reveal_strlit("9");
        assert(digit@ =~= seq![digit_char(d as nat)]);
    }
    let r = s.concat(digit);
    proof {
        if n >= 10 {
            assert(decimal_chars(n as nat) == decimal_chars((n / 10) as nat).push(
                digit_char(d as nat),
            ));
            assert(r@ =~= s0 + decimal_chars(n as nat));
        } else {
            assert(r@ =~= s0 + decimal_chars(n as nat));
        }
    }
    r
}

/// The file stem that names a segment: `T`, or `T_G` for a generation
/// above 0; reading it back gives the segment.
pub fn stem_name(id: &SegmentId) -> (r: String)
    ensures
        r@ == stem_chars(*id),
        stem_id(encode_utf8(r@)) == Some((id.time as nat, id.generation as nat)),
{
    let t = push_decimal(String::new(), id.time);
    let r = if id.generation == 0 {
        t
    } else {
        push_decimal(t.concat("_"), id.generation)
    };
    proof {
        reveal_strlit("_");
        if id.generation == 0 {
            assert(r@ =~= stem_chars(*id));
        } else {
            assert(r@ =~= stem_chars(*id));
        }
        lemma_stem_round_trip(*id);
    }
    r
}

/// Whether `a` is newer than `b`.
pub fn is_newer(a: &SegmentId, b: &SegmentId) -> (r: bool)
    ensures
        r == newer(*a, *b),
{
    a.time > b.time || (a.time == b.time && a.generation > b.generation)
}

/// The segments ordered newest first.
pub fn sort_newest_first(ids: &Vec<SegmentId>) -> (r: Vec<SegmentId>)
    ensures
        newest_first(r@),
        r@.to_multiset() == ids@.to_multiset(),
{
    let mut out: Vec<SegmentId> = Vec::new();
    let mut i: usize = 0;
    proof {
        assert(ids@.take(0) =~= Seq::<SegmentId>::empty());
    }
    while i < ids.len()
        invariant
            i <= ids@.len(),
            newest_first(out@),
            out@.to_multiset() == ids@.take(i as int).to_multiset(),
        decreases ids@.len() - i,
    {
        let x = ids[i];
        let mut p: usize = 0;
        while p < out.len() && !is_newer(&x, &out[p])
            invariant
                p <= out@.len(),
                forall|k: int| 0 <= k < p ==> !newer(x, #[trigger] out@[k]),
            decreases out@.len() - p,
        {
            p = p + 1;
        }
        let ghost before = out@;
        out.insert(p, x);
        proof {
            vstd::seq_lib::to_multiset_insert(before, p as int, x);
            vstd::seq_lib::to_multiset_build(ids@.take(i as int), x);
            assert(ids@.take(i as int + 1) =~= ids@.take(i as int).push(x));
            assert forall|a: int, c: int| 0 <= a < c < out@.len() implies !newer(
                #[trigger] out@[c],
                #[trigger] out@[a],
            ) by {
                if c < p {
                    assert(out@[a] == before[a] && out@[c] == before[c]);
                } else if c == p {
                    assert(out@[a] == before[a]);
                } else if a < p {
                    assert(out@[a] == before[a] && out@[c] == before[c - 1]);
                } else if a == p {
                    assert(out@[c] == before[c - 1]);
                    assert(newer(x, before[p as int]));
                    if c - 1 > p {
                        assert(!newer(before[c - 1], before[p as int]));
                    }
                } else {
                    assert(out@[a] == before[a - 1] && out@[c] == before[c - 1]);
                }
            }
        }
        i = i + 1;
    }
    proof {
        assert(ids@.take(i as int) =~= ids@);
    }
    out
}

/// The name of the segment that compacting `older` writes: its time, one
/// generation on; absent where the generation cannot grow.
pub fn compacted_name(older: &SegmentId) -> (r: Option<SegmentId>)
    ensures
        older.generation < u64::MAX ==> r == Some(
            SegmentId { time: older.time, generation: (older.generation + 1) as u64 },
        ),
        older.generation == u64::MAX ==> r is None,
{
    if older.generation == u64::MAX {
        None
    } else {
        Some(SegmentId { time: older.time, generation: older.generation + 1 })
    }
}

/// Whether `existing` holds the segment `(time, generation)`.
pub fn contains_id(existing: &Vec<SegmentId>, time: u64, generation: u64) -> (r: bool)
    ensures
        r == existing@.contains(SegmentId { time, generation }),
{
    let mut i: usize = 0;
    while i < existing.len()
        invariant
            i <= existing@.len(),
            forall|j: int| 0 <= j < i ==> existing@[j] != (SegmentId { time, generation }),
        decreases existing@.len() - i,
    {
        let e = existing[i];
        if e.time == time && e.generation == generation {
            proof {
                assert(existing@[i as int] == (SegmentId { time, generation }));
            }
            return true;
        }
        i = i + 1;
    }
    false
}

/// The name under which compacting `older` writes: the same time, and the
/// first generation above `older`'s that no existing segment has. A stale
/// output of an earlier sweep is thus merged again under a newer name.
/// None only where every later generation is taken.
pub fn compaction_target(older: &SegmentId, existing: &Vec<SegmentId>) -> (r: Option<SegmentId>)
    ensures
        r is Some ==> {
            &&& r.unwrap().time == older.time
            &&& r.unwrap().generation > older.generation
            &&& !existing@.contains(r.unwrap())
            &&& forall|g: u64|
                older.generation < g < r.unwrap().generation ==> existing@.contains(
                    SegmentId { time: older.time, generation: g },
                )
        },
        r is None ==> forall|g: u64|
            older.generation < g ==> existing@.contains(
                SegmentId { time: older.time, generation: g },
            ),
{
    if older.generation == u64::MAX {
        return None;
    }
    let mut g: u64 = older.generation + 1;
    loop
        invariant
            older.generation < g,
            forall|h: u64|
                older.generation < h < g ==> existing@.contains(
                    SegmentId { time: older.time, generation: h },
                ),
        decreases u64::MAX - g,
    {
        if !contains_id(existing, older.time, g) {
            return Some(SegmentId { time: older.time, generation: g });
        }
        if g == u64::MAX {
            return None;
        }
        g = g + 1;
    }
}

/// The segments whose data file is smaller than `limit` bytes, in order.
pub open spec fn small_ids(listed: Seq<(SegmentId, u64)>, limit: u64) -> Seq<SegmentId>
    decreases listed.len(),
{
    if listed.len() == 0 {
        Seq::empty()
    } else {
        let rest = small_ids(listed.drop_last(), limit);
        if listed.last().1 < limit {
            rest.push(listed.last().0)
        } else {
            rest
        }
    }
}

/// Data files at least this large are left out of compaction.
pub const COMPACTION_SIZE_LIMIT: u64 = 5 * 1024 * 1024;

/// The segments, each listed with its data file's size, that compaction
/// considers: those whose data file is smaller than `limit`.
pub fn small_segments(listed: &Vec<(SegmentId, u64)>, limit: u64) -> (r: Vec<SegmentId>)
    ensures
        r@ == small_ids(listed@, limit),
{
    let mut out: Vec<SegmentId> = Vec::new();
    let mut i: usize = 0;
    proof {
        assert(listed@.take(0) =~= Seq::<(SegmentId, u64)>::empty());
    }
    while i < listed.len()
        invariant
            i <= listed@.len(),
            out@ == small_ids(listed@.take(i as int), limit),
        decreases listed@.len() - i,
    {
        let (id, size) = listed[i];
        proof {
            assert(listed@.take(i as int + 1).drop_last() =~= listed@.take(i as int));
            assert(listed@.take(i as int + 1).last() == listed@[i as int]);
        }
        if size < limit {
            out.push(id);
        }
        i = i + 1;
    }
    proof {
        assert(listed@.take(i as int) =~= listed@);
    }
    out
}

/// The pairs a compaction sweep merges, from small segments ordered newest
/// first: while more than two remain, the two oldest, the oldest first.
pub fn plan_compaction(small: &Vec<SegmentId>) -> (r: Vec<(SegmentId, SegmentId)>)
    ensures
        r@.len() == if small@.len() > 2 {
            (small@.len() - 1) / 2
        } else {
            0
        },
        forall|k: int|
            0 <= k < r@.len() ==> #[trigger] r@[k] == (
                small@[small@.len() - 1 - 2 * k],
                small@[small@.len() - 2 - 2 * k],
            ),
{
    let mut out: Vec<(SegmentId, SegmentId)> = Vec::new();
    let mut left: usize = small.len();
    while left > 2
        invariant
            left <= small@.len(),
            small@.len() <= 2 ==> left == small@.len(),
            small@.len() > 2 ==> left >= 1,
            out@.len() * 2 + left == small@.len(),
            forall|k: int|
                0 <= k < out@.len() ==> #[trigger] out@[k] == (
                    small@[small@.len() - 1 - 2 * k],
                    small@[small@.len() - 2 - 2 * k],
                ),
        decreases left,
    {
        out.push((small[left - 1], small[left - 2]));
        left = left - 2;
    }
    out
}

/// Compacting two segments into a name not otherwise taken leaves one
/// segment fewer.
pub proof fn lemma_compaction_reduces_count(
    segs: Set<SegmentId>,
    older: SegmentId,
    newer_one: SegmentId,
    merged: SegmentId,
)
    requires
        segs.finite(),
        segs.contains(older),
        segs.contains(newer_one),
        older != newer_one,
        !segs.remove(older).remove(newer_one).contains(merged),
    ensures
        segs.remove(older).remove(newer_one).insert(merged).len() + 1 == segs.len(),
{
}

} // verus!
