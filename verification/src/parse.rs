//! The specification parser: free text of the shape `id[:qty]/id[:qty]/...`
//! becomes (identifier, quantity) pairs, with each quantity defaulting to one
//! and clamped into the closed range `[1, 4]`.

use vstd::prelude::*;
use vstd::string::StrSliceExecFns;

verus! {

pub open spec fn is_digit_char(c: char) -> bool {
    '0' <= c && c <= '9'
}

pub open spec fn digit_int(c: char) -> int {
    c as u32 - '0' as u32
}

pub open spec fn all_digits(s: Seq<char>) -> bool {
    forall|i: int| 0 <= i < s.len() ==> is_digit_char(s[i])
}

/// The non-negative integer the decimal digits of `s` denote.
pub open spec fn digits_val(s: Seq<char>) -> int
    decreases s.len(),
{
    if s.len() == 0 {
        0
    } else {
        digits_val(s.drop_last()) * 10 + digit_int(s.last())
    }
}

/// The value a signed 64-bit decimal parse gives the text, if any: an
/// optional sign, then at least one digit, with the result in range.
pub open spec fn spec_parse_i64(s: Seq<char>) -> Option<int> {
    let body = if s.len() > 0 && (s[0] == '+' || s[0] == '-') {
        s.drop_first()
    } else {
        s
    };
    if body.len() == 0 || !all_digits(body) {
        None
    } else {
        let v = if s.len() > 0 && s[0] == '-' {
            -digits_val(body)
        } else {
            digits_val(body)
        };
        if i64::MIN <= v <= i64::MAX {
            Some(v)
        } else {
            None
        }
    }
}

pub open spec fn parse_i64_or(s: Seq<char>, dflt: int) -> int {
    match spec_parse_i64(s) {
        Some(v) => v,
        None => dflt,
    }
}

/// A requested quantity, forced into the closed range `[1, 4]`.
pub open spec fn clamp_qty(q: int) -> int {
    if q < 1 {
        1
    } else if q > 4 {
        4
    } else {
        q
    }
}

pub open spec fn contains_char(s: Seq<char>, c: char) -> bool {
    exists|i: int| 0 <= i < s.len() && s[i] == c
}

/// Position of the first occurrence of `c` in `s`; meaningful only when `s`
/// contains `c`.
pub open spec fn first_index(s: Seq<char>, c: char) -> int
    decreases s.len(),
{
    if s.len() == 0 {
        0
    } else if s[0] == c {
        0
    } else {
        1 + first_index(s.drop_first(), c)
    }
}

pub proof fn lemma_first_index(s: Seq<char>, c: char)
    requires
        contains_char(s, c),
    ensures
        0 <= first_index(s, c) < s.len(),
        s[first_index(s, c)] == c,
        forall|j: int| 0 <= j < first_index(s, c) ==> s[j] != c,
    decreases s.len(),
{
    if s[0] == c {
    } else {
        assert(contains_char(s.drop_first(), c)) by {
            let i = choose|i: int| 0 <= i < s.len() && s[i] == c;
            assert(s.drop_first()[i - 1] == c);
        }
        lemma_first_index(s.drop_first(), c);
        assert(forall|j: int| 0 <= j < s.drop_first().len() ==> s.drop_first()[j] == s[j + 1]);
        assert forall|j: int| 0 <= j < first_index(s, c) implies s[j] != c by {
            if j > 0 {
                assert(s.drop_first()[j - 1] != c);
            }
        }
    }
}

/// If the characters before `m` are not `c` and the one at `m` is, then `m`
/// is the first occurrence.
pub proof fn lemma_first_index_is(s: Seq<char>, c: char, m: int)
    requires
        0 <= m < s.len(),
        s[m] == c,
        forall|j: int| 0 <= j < m ==> s[j] != c,
    ensures
        contains_char(s, c),
        first_index(s, c) == m,
{
    assert(contains_char(s, c));
    lemma_first_index(s, c);
    let fi = first_index(s, c);
    if fi < m {
        assert(s[fi] != c);
        assert(false);
    } else if fi > m {
        assert(s[m] != c);
        assert(false);
    }
}

/// The segments of `s` between occurrences of `sep`, in order. A string
/// without the separator is one segment; every separator ends a segment,
/// so adjacent separators yield empty segments.
pub open spec fn split_char(s: Seq<char>, sep: char) -> Seq<Seq<char>>
    decreases s.len(),
    via split_char_dec
{
    if !contains_char(s, sep) {
        seq![s]
    } else {
        seq![s.take(first_index(s, sep))] + split_char(s.skip(first_index(s, sep) + 1), sep)
    }
}

#[via_fn]
proof fn split_char_dec(s: Seq<char>, sep: char) {
    if contains_char(s, sep) {
        lemma_first_index(s, sep);
    }
}

pub proof fn lemma_split_no_sep(s: Seq<char>, sep: char)
    requires
        forall|j: int| 0 <= j < s.len() ==> s[j] != sep,
    ensures
        split_char(s, sep) == seq![s],
{
    assert(!contains_char(s, sep));
}

pub proof fn lemma_split_at_sep(s: Seq<char>, sep: char, m: int)
    requires
        0 <= m < s.len(),
        s[m] == sep,
        forall|j: int| 0 <= j < m ==> s[j] != sep,
    ensures
        split_char(s, sep) == seq![s.take(m)] + split_char(s.skip(m + 1), sep),
{
    lemma_first_index_is(s, sep, m);
}

/// The pair one segment denotes: the text before the first `:` names the
/// card; the text between the first and second `:` (or the end) is the
/// quantity, defaulting to one if absent or unparsable and then clamped.
/// A segment without `:` requests one copy of the whole text.
pub open spec fn parse_pair(seg: Seq<char>) -> (Seq<char>, int) {
    if !contains_char(seg, ':') {
        (seg, 1)
    } else {
        let fi = first_index(seg, ':');
        let rest = seg.skip(fi + 1);
        let qtxt = if contains_char(rest, ':') {
            rest.take(first_index(rest, ':'))
        } else {
            rest
        };
        (seg.take(fi), clamp_qty(parse_i64_or(qtxt, 1)))
    }
}

/// What a whole card-list string denotes: one pair per `/`-separated
/// segment, in order, duplicates kept.
pub open spec fn spec_parse_cards(s: Seq<char>) -> Seq<(Seq<char>, int)> {
    split_char(s, '/').map_values(|seg: Seq<char>| parse_pair(seg))
}

/// Peeling the first segment off a card-list string: the text before the
/// first separator is one pair, the rest parses on its own.
pub proof fn lemma_parse_cards_step(s: Seq<char>, m: int)
    requires
        0 <= m < s.len(),
        s[m] == '/',
        forall|j: int| 0 <= j < m ==> s[j] != '/',
    ensures
        spec_parse_cards(s) == seq![parse_pair(s.take(m))] + spec_parse_cards(s.skip(m + 1)),
{
    lemma_split_at_sep(s, '/', m);
    let f = |seg: Seq<char>| parse_pair(seg);
    let parts = seq![s.take(m)] + split_char(s.skip(m + 1), '/');
    assert(spec_parse_cards(s) =~= seq![parse_pair(s.take(m))] + spec_parse_cards(s.skip(m + 1)))
        by {
        assert(forall|i: int|
            0 <= i < parts.len() ==> spec_parse_cards(s)[i] == f(parts[i]));
        assert(forall|i: int|
            1 <= i < parts.len() ==> parts[i] == split_char(s.skip(m + 1), '/')[i - 1]);
    }
}

/// A card-list string without a separator is a single segment.
pub proof fn lemma_parse_cards_last(s: Seq<char>)
    requires
        forall|j: int| 0 <= j < s.len() ==> s[j] != '/',
    ensures
        spec_parse_cards(s) == seq![parse_pair(s)],
{
    lemma_split_no_sep(s, '/');
    assert(spec_parse_cards(s) =~= seq![parse_pair(s)]);
}

/// A card-list string with no separator and no quantity suffix requests
/// exactly one copy of the whole text.
pub proof fn lemma_plain_id_requests_one(s: Seq<char>)
    requires
        !contains_char(s, '/'),
        !contains_char(s, ':'),
    ensures
        spec_parse_cards(s) == seq![(s, 1int)],
{
    lemma_parse_cards_last(s);
    assert(parse_pair(s) == (s, 1int));
}

/// Every quantity a parse yields lies in the closed range `[1, 4]`,
/// whatever the text asked for.
pub proof fn lemma_parsed_quantities_clamped(s: Seq<char>)
    ensures
        forall|i: int|
            0 <= i < spec_parse_cards(s).len() ==> 1 <= (#[trigger] spec_parse_cards(s)[i]).1
                <= 4,
{
    let parts = split_char(s, '/');
    assert forall|i: int|
        0 <= i < spec_parse_cards(s).len() implies 1 <= (#[trigger] spec_parse_cards(s)[i]).1
        <= 4 by {
        assert(spec_parse_cards(s)[i] == parse_pair(parts[i]));
    }
}

proof fn lemma_digits_val_nonneg(s: Seq<char>)
    requires
        all_digits(s),
    ensures
        digits_val(s) >= 0,
    decreases s.len(),
{
    if s.len() > 0 {
        assert(forall|j: int| 0 <= j < s.drop_last().len() ==> s.drop_last()[j] == s[j]);
        lemma_digits_val_nonneg(s.drop_last());
        assert(is_digit_char(s.last()));
    }
}

/// Reading more digits never shrinks the value.
proof fn lemma_digits_val_prefix(s: Seq<char>, j: int)
    requires
        all_digits(s),
        0 <= j <= s.len(),
    ensures
        0 <= digits_val(s.take(j)) <= digits_val(s),
    decreases s.len(),
{
    assert(forall|i: int| 0 <= i < s.take(j).len() ==> s.take(j)[i] == s[i]);
    if j == s.len() {
        assert(s.take(j) =~= s);
        lemma_digits_val_nonneg(s);
    } else {
        assert(forall|i: int| 0 <= i < s.drop_last().len() ==> s.drop_last()[i] == s[i]);
        assert(s.drop_last().take(j) =~= s.take(j));
        lemma_digits_val_prefix(s.drop_last(), j);
        lemma_digits_val_nonneg(s.drop_last());
        assert(is_digit_char(s.last()));
        assert(digits_val(s) == digits_val(s.drop_last()) * 10 + digit_int(s.last()));
        assert(digits_val(s.drop_last()) * 10 >= digits_val(s.drop_last())) by {
            assert(digits_val(s.drop_last()) >= 0);
        }
    }
}

/// Position of the first occurrence of `c` in `s` at or after `from`.
pub fn find_char(s: &str, from: usize, c: char) -> (r: Option<usize>)
    requires
        from <= s@.len(),
    ensures
        match r {
            Some(i) => from <= i < s@.len() && s@[i as int] == c && forall|j: int|
                from <= j < i ==> s@[j] != c,
            None => forall|j: int| from <= j < s@.len() ==> s@[j] != c,
        },
{
    let n = s.unicode_len();
    let mut i = from;
    while i < n
        invariant
            n == s@.len(),
            from <= i <= n,
            forall|j: int| from <= j < i ==> s@[j] != c,
        decreases n - i,
    {
        if s.get_char(i) == c {
            return Some(i);
        }
        i = i + 1;
    }
    None
}

/// Parse the text as a signed 64-bit integer, yielding one where the text is
/// empty, malformed or out of range.
pub fn parse_i64_or_one(s: &str) -> (r: i64)
    ensures
        r as int == parse_i64_or(s@, 1),
{
    let n = s.unicode_len();
    if n == 0 {
        return 1;
    }
    let first = s.get_char(0);
    let neg = first == '-';
    let start: usize = if first == '-' || first == '+' {
        1
    } else {
        0
    };
    let ghost body = if start == 1 {
        s@.drop_first()
    } else {
        s@
    };
    proof {
        assert(forall|j: int| 0 <= j < body.len() ==> body[j] == s@[j + start]);
    }
    if start == n {
        assert(body.len() == 0);
        return 1;
    }
    let bound: u64 = if neg {
        9223372036854775808
    } else {
        9223372036854775807
    };
    let mut mag: u64 = 0;
    let mut i = start;
    while i < n
        invariant
            n == s@.len(),
            start <= i <= n,
            start == 0 || start == 1,
            start == 1 ==> (s@[0] == '-' || s@[0] == '+'),
            start == 0 ==> !(s@[0] == '-' || s@[0] == '+'),
            neg == (s@[0] == '-'),
            body == (if start == 1 {
                s@.drop_first()
            } else {
                s@
            }),
            body.len() == n - start,
            forall|j: int| 0 <= j < body.len() ==> body[j] == s@[j + start],
            forall|j: int| 0 <= j < i - start ==> is_digit_char(body[j]),
            mag as int == digits_val(body.take(i - start)),
            mag <= bound,
            bound as int == (if neg {
                i64::MAX as int + 1
            } else {
                i64::MAX as int
            }),
        decreases n - i,
    {
        let c = s.get_char(i);
        let u = c as u32;
        let ghost bidx = i - start;
        proof {
            assert(body[bidx as int] == s@[i as int]);
        }
        if u < 48 || u > 57 {
            // one malformed character spoils the whole parse
            assert(!is_digit_char(body[bidx as int]));
            assert(!all_digits(body));
            return 1;
        }
        assert(is_digit_char(body[bidx as int]));
        let d = (u - 48) as u64;
        proof {
            assert(digit_int(body[bidx as int]) == d as int);
            assert(body.take(bidx as int + 1).drop_last() =~= body.take(bidx as int));
            assert(body.take(bidx as int + 1).last() == body[bidx as int]);
            assert(digits_val(body.take(bidx as int + 1)) == mag as int * 10 + d as int);
        }
        if mag > (bound - d) / 10 {
            // the digits read so far already overflow the 64-bit range
            proof {
                let q = (bound - d) / 10;
                assert((bound - d) as int == q as int * 10 + ((bound - d) as int) % 10) by {
                    assert(q == (bound - d) as int / 10);
                }
                assert(((bound - d) as int) % 10 <= 9);
                assert(mag as int * 10 + d as int > bound as int);
                if all_digits(body) {
                    lemma_digits_val_prefix(body, bidx as int + 1);
                    assert(digits_val(body) > bound as int);
                }
            }
            return 1;
        }
        proof {
            let q = (bound - d) / 10;
            assert((bound - d) as int == q as int * 10 + ((bound - d) as int) % 10) by {
                assert(q == (bound - d) as int / 10);
            }
            assert(((bound - d) as int) % 10 >= 0);
            assert(mag as int * 10 + d as int <= bound as int);
        }
        mag = mag * 10 + d;
        i = i + 1;
    }
    proof {
        assert(body.take(n - start) =~= body);
        assert(all_digits(body));
        assert(mag as int == digits_val(body));
    }
    if neg {
        if mag == 9223372036854775808 {
            i64::MIN
        } else {
            -(mag as i64)
        }
    } else {
        mag as i64
    }
}

/// Force a requested quantity into the closed range `[1, 4]`.
pub fn clamp_quantity(q: i64) -> (r: i64)
    ensures
        r as int == clamp_qty(q as int),
{
    if q < 1 {
        1
    } else if q > 4 {
        4
    } else {
        q
    }
}

/// Parse one `/`-free segment into its (identifier, quantity) pair.
pub fn parse_segment(seg: &str) -> (r: (String, i64))
    ensures
        (r.0@, r.1 as int) == parse_pair(seg@),
        1 <= r.1 <= 4,
{
    let n = seg.unicode_len();
    match find_char(seg, 0, ':') {
        None => {
            proof {
                assert(!contains_char(seg@, ':'));
            }
            (seg.to_owned(), 1)
        },
        Some(fi) => {
            proof {
                lemma_first_index_is(seg@, ':', fi as int);
            }
            let id = seg.substring_char(0, fi).to_owned();
            assert(id@ =~= seg@.take(fi as int));
            let ghost rest = seg@.skip(fi as int + 1);
            proof {
                assert(forall|j: int| 0 <= j < rest.len() ==> rest[j] == seg@[j + fi + 1]);
            }
            let qend = match find_char(seg, fi + 1, ':') {
                Some(j2) => {
                    proof {
                        lemma_first_index_is(rest, ':', j2 - fi - 1);
                        assert(rest.take(j2 - fi - 1) =~= seg@.subrange(fi as int + 1, j2 as int));
                    }
                    j2
                },
                None => {
                    proof {
                        assert(!contains_char(rest, ':'));
                        assert(rest =~= seg@.subrange(fi as int + 1, n as int));
                    }
                    n
                },
            };
            let qtxt = seg.substring_char(fi + 1, qend);
            let amt = clamp_quantity(parse_i64_or_one(qtxt));
            (id, amt)
        },
    }
}

} // verus!
