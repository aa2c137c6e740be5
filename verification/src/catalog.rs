//! The computable side of batched catalog lookups: card identifiers are
//! chunked, at most 250 per request, and each chunk becomes one disjunctive
//! query string. Sending the queries is the caller's business.

use vstd::math::min;
use vstd::prelude::*;
use vstd::string::StringExecFns;

verus! {

/// Identifiers sent in one catalog request, at most.
pub const CHUNK_SIZE: usize = 250;

/// The views of a vector of identifiers.
pub open spec fn ids_view(v: Seq<String>) -> Seq<Seq<char>> {
    v.map_values(|s: String| s@)
}

/// One identifier's search term.
pub open spec fn id_term(id: Seq<char>) -> Seq<char> {
    "id:"@ + id
}

/// The disjunction of the search terms of `ids`, in order.
pub open spec fn inner_query(ids: Seq<Seq<char>>) -> Seq<char>
    decreases ids.len(),
{
    if ids.len() == 0 {
        Seq::empty()
    } else if ids.len() == 1 {
        id_term(ids[0])
    } else {
        inner_query(ids.drop_last()) + " OR "@ + id_term(ids.last())
    }
}

/// The full query for one chunk of identifiers.
pub open spec fn chunk_query(ids: Seq<Seq<char>>) -> Seq<char> {
    "("@ + inner_query(ids) + ")"@
}

/// How many requests a batch of `n` identifiers needs.
pub open spec fn num_chunks(n: int) -> int {
    (n + CHUNK_SIZE - 1) / (CHUNK_SIZE as int)
}

/// Build the catalog query strings for a batched lookup: the identifiers are
/// split into chunks of at most 250, in order, and each chunk becomes the
/// disjunction of its identifiers' search terms, in parentheses.
pub fn catalog_queries(card_ids: &Vec<String>) -> (r: Vec<String>)
    ensures
        r@.len() == num_chunks(card_ids@.len() as int),
        forall|i: int|
            0 <= i < r@.len() ==> (#[trigger] r@[i])@ == chunk_query(
                ids_view(card_ids@).subrange(
                    i * CHUNK_SIZE,
                    min((i + 1) * (CHUNK_SIZE as int), card_ids@.len() as int),
                ),
            ),
{
    let ghost all = ids_view(card_ids@);
    let n = card_ids.len();
    let mut out: Vec<String> = Vec::new();
    let mut start: usize = 0;
    while start < n
        invariant
            all == ids_view(card_ids@),
            all.len() == n,
            n == card_ids@.len(),
            start <= n,
            start == out@.len() * CHUNK_SIZE || (start == n && out@.len() == num_chunks(n as int)),
            start < n ==> start == out@.len() * CHUNK_SIZE,
            forall|i: int|
                0 <= i < out@.len() ==> (#[trigger] out@[i])@ == chunk_query(
                    all.subrange(
                        i * CHUNK_SIZE,
                        min((i + 1) * (CHUNK_SIZE as int), n as int),
                    ),
                ),
        decreases n - start,
    {
        let end = if n - start > CHUNK_SIZE {
            start + CHUNK_SIZE
        } else {
            n
        };
        let ghost chunk = all.subrange(start as int, end as int);
        let mut q = "(".to_owned();
        let mut j = start;
        while j < end
            invariant
                all == ids_view(card_ids@),
                all.len() == n,
                n == card_ids@.len(),
                start <= j <= end <= n,
                chunk == all.subrange(start as int, end as int),
                q@ == "("@ + inner_query(chunk.take(j - start)),
            decreases end - j,
        {
            proof {
                assert(chunk[j - start] == card_ids@[j as int]@);
            }
            if j > start {
                q.append(" OR ");
            }
            q.append("id:");
            q.append(card_ids[j].as_str());
            proof {
                let k = j - start;
                if k == 0 {
                    assert(chunk.take(1).len() == 1);
                    assert(chunk.take(1)[0] == chunk[0]);
                    assert(inner_query(chunk.take(1)) == id_term(chunk[0]));
                    assert(q@ =~= "("@ + inner_query(chunk.take(1)));
                } else {
                    assert(chunk.take(k + 1).drop_last() =~= chunk.take(k));
                    assert(chunk.take(k + 1).last() == chunk[k]);
                    assert(inner_query(chunk.take(k + 1)) == inner_query(chunk.take(k)) + " OR "@
                        + id_term(chunk[k]));
                    assert(q@ =~= "("@ + inner_query(chunk.take(k + 1)));
                }
            }
            j = j + 1;
        }
        q.append(")");
        proof {
            assert(chunk.take(end - start) =~= chunk);
            assert(q@ =~= chunk_query(chunk));
        }
        out.push(q);
        start = end;
        proof {
            if start == n {
                assert(out@.len() == num_chunks(n as int));
            }
        }
    }
    proof {
        if n == 0 {
            assert(num_chunks(0) == 0);
        }
    }
    out
}

} // verus!
