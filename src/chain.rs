//! Heuristic ordering of certificate records into leaf-to-root chains.
//!
//! A record links to the first record, in bundle order, that is not yet in
//! the chain and whose subject common name equals the record's issuer common
//! name. No signature is checked: this is a best-effort association.
use vstd::prelude::*;
use crate::record::CertificateInfo;

verus! {

/// A record starts a chain when it is not a CA, or when it is self-signed.
pub open spec fn is_leaf_candidate(c: CertificateInfo) -> bool {
    !c.is_ca || c.is_self_signed
}

/// The indices below `k` of the records that start a chain, in bundle order.
pub open spec fn leaf_candidates(recs: Seq<CertificateInfo>, k: int) -> Seq<usize>
    decreases k,
{
    if k <= 0 {
        seq![]
    } else if is_leaf_candidate(recs[k - 1]) {
        leaf_candidates(recs, k - 1).push((k - 1) as usize)
    } else {
        leaf_candidates(recs, k - 1)
    }
}

/// The lowest index at or above `from` of a record outside `chain` whose
/// subject common name is `cn`.
pub open spec fn first_issuer(recs: Seq<CertificateInfo>, chain: Seq<usize>, cn: Seq<char>, from: int) -> Option<usize>
    decreases recs.len() - from,
{
    if from < 0 || from >= recs.len() {
        None
    } else if !chain.contains(from as usize) && recs[from].subject_common_name@ == cn {
        Some(from as usize)
    } else {
        first_issuer(recs, chain, cn, from + 1)
    }
}

/// The chain collected by walking upward from `cur`, after `chain` was
/// collected. The walk stops at a repeated index, at a self-signed record,
/// or where no issuer is found. (The length bound is never what stops it:
/// a chain holds distinct indices of `recs`.)
pub open spec fn walk(recs: Seq<CertificateInfo>, cur: usize, chain: Seq<usize>) -> Seq<usize>
    decreases recs.len() - chain.len(),
{
    if chain.contains(cur) || chain.len() >= recs.len() {
        chain
    } else {
        let next = chain.push(cur);
        if recs[cur as int].is_self_signed {
            next
        } else {
            match first_issuer(recs, next, recs[cur as int].issuer_common_name@, 0) {
                Some(j) => walk(recs, j, next),
                None => next,
            }
        }
    }
}

/// The chain that starts at record `leaf`.
pub open spec fn chain_from(recs: Seq<CertificateInfo>, leaf: usize) -> Seq<usize> {
    walk(recs, leaf, seq![])
}

/// One chain per leaf candidate, in bundle order of the candidates.
pub open spec fn chains_of(recs: Seq<CertificateInfo>) -> Seq<Seq<usize>> {
    leaf_candidates(recs, recs.len() as int).map_values(|l: usize| chain_from(recs, l))
}

proof fn lemma_first_issuer_found(recs: Seq<CertificateInfo>, chain: Seq<usize>, cn: Seq<char>, from: int)
    requires
        recs.len() <= usize::MAX,
    ensures
        match first_issuer(recs, chain, cn, from) {
            Some(j) => from <= j < recs.len() && !chain.contains(j) && recs[j as int].subject_common_name@ == cn,
            None => true,
        },
    decreases recs.len() - from,
{
    if 0 <= from < recs.len() {
        lemma_first_issuer_found(recs, chain, cn, from + 1);
    }
}

fn find_issuer(records: &Vec<CertificateInfo>, visited: &Vec<bool>, cn: &String, Ghost(chain): Ghost<Seq<usize>>) -> (r: Option<usize>)
    requires
        visited@.len() == records@.len(),
        forall|k: int| 0 <= k < visited@.len() ==> visited@[k] == chain.contains(k as usize),
    ensures
        r == first_issuer(records@, chain, cn@, 0),
{
    let n = records.len();
    let mut i: usize = 0;
    while i < n
        invariant
            i <= n,
            n == records@.len(),
            visited@.len() == n,
            forall|k: int| 0 <= k < visited@.len() ==> visited@[k] == chain.contains(k as usize),
            first_issuer(records@, chain, cn@, 0) == first_issuer(records@, chain, cn@, i as int),
        decreases n - i,
    {
        if !visited[i] && records[i].subject_common_name == *cn {
            return Some(i);
        }
        i = i + 1;
    }
    None
}

fn resolve_chain(records: &Vec<CertificateInfo>, leaf: usize) -> (chain: Vec<usize>)
    requires
        leaf < records@.len(),
    ensures
        chain@ == chain_from(records@, leaf),
{
    let n = records.len();
    let mut visited: Vec<bool> = Vec::new();
    let mut k: usize = 0;
    while k < n
        invariant
            k <= n,
            visited@ == Seq::new(k as nat, |_j: int| false),
        decreases n - k,
    {
        visited.push(false);
        k = k + 1;
    }
    let mut chain: Vec<usize> = Vec::new();
    let mut cur = leaf;
    loop
        invariant
            n == records@.len(),
            cur < n,
            visited@.len() == n,
            forall|j: int| 0 <= j < n ==> visited@[j] == chain@.contains(j as usize),
            walk(records@, cur, chain@) == chain_from(records@, leaf),
        decreases n - chain@.len(),
    {
        if visited[cur] || chain.len() >= n {
            return chain;
        }
        let ghost before = chain@;
        visited.set(cur, true);
        chain.push(cur);
        assert forall|j: int| 0 <= j < n implies visited@[j] == chain@.contains(j as usize) by {
            if j as usize != cur {
                if before.contains(j as usize) {
                    let w = choose|w: int| 0 <= w < before.len() && before[w] == j as usize;
                    assert(chain@[w] == j as usize);
                }
                if chain@.contains(j as usize) {
                    let w = choose|w: int| 0 <= w < chain@.len() && chain@[w] == j as usize;
                    assert(w < before.len());
                    assert(before[w] == j as usize);
                }
            } else {
                assert(chain@[chain@.len() - 1] == cur);
            }
        }
        if records[cur].is_self_signed {
            return chain;
        }
        let found = find_issuer(records, &visited, &records[cur].issuer_common_name, Ghost(chain@));
        proof {
            lemma_first_issuer_found(records@, chain@, records@[cur as int].issuer_common_name@, 0);
        }
        match found {
            Some(j) => {
                cur = j;
            },
            None => {
                return chain;
            },
        }
    }
}

/// Orders the records into chains, leaf first: one chain for each record
/// that is not a CA or is self-signed, in bundle order.
pub fn build_certificate_chain(records: &Vec<CertificateInfo>) -> (chains: Vec<Vec<usize>>)
    ensures
        chains@.len() == chains_of(records@).len(),
        forall|k: int| 0 <= k < chains@.len() ==> #[trigger] chains@[k]@ == chains_of(records@)[k],
{
    let n = records.len();
    let mut chains: Vec<Vec<usize>> = Vec::new();
    let mut i: usize = 0;
    while i < n
        invariant
            i <= n,
            n == records@.len(),
            chains@.len() == leaf_candidates(records@, i as int).len(),
            forall|k: int| 0 <= k < chains@.len() ==> #[trigger] chains@[k]@
                == chain_from(records@, leaf_candidates(records@, i as int)[k]),
        decreases n - i,
    {
        if !records[i].is_ca || records[i].is_self_signed {
            let c = resolve_chain(records, i);
            chains.push(c);
        }
        i = i + 1;
    }
    chains
}

proof fn lemma_walk_extends(recs: Seq<CertificateInfo>, cur: usize, chain: Seq<usize>)
    ensures
        walk(recs, cur, chain).len() >= chain.len(),
        walk(recs, cur, chain).subrange(0, chain.len() as int) == chain,
    decreases recs.len() - chain.len(),
{
    if !(chain.contains(cur) || chain.len() >= recs.len()) {
        let next = chain.push(cur);
        if !recs[cur as int].is_self_signed {
            match first_issuer(recs, next, recs[cur as int].issuer_common_name@, 0) {
                Some(j) => {
                    lemma_walk_extends(recs, j, next);
                    assert(walk(recs, cur, chain).subrange(0, chain.len() as int)
                        == walk(recs, j, next).subrange(0, next.len() as int).subrange(0, chain.len() as int));
                },
                None => {
                    assert(next.subrange(0, chain.len() as int) == chain);
                },
            }
        } else {
            assert(next.subrange(0, chain.len() as int) == chain);
        }
    } else {
        assert(chain.subrange(0, chain.len() as int) == chain);
    }
}

proof fn lemma_walk_stops_at_self_signed(recs: Seq<CertificateInfo>, cur: usize, chain: Seq<usize>)
    requires
        forall|q: int| 0 <= q < chain.len() ==> !recs[chain[q] as int].is_self_signed,
    ensures
        forall|q: int| 0 <= q < walk(recs, cur, chain).len() - 1
            ==> !recs[walk(recs, cur, chain)[q] as int].is_self_signed,
    decreases recs.len() - chain.len(),
{
    if !(chain.contains(cur) || chain.len() >= recs.len()) {
        let next = chain.push(cur);
        if !recs[cur as int].is_self_signed {
            assert forall|q: int| 0 <= q < next.len() implies !recs[next[q] as int].is_self_signed by {
                if q < chain.len() {
                    assert(next[q] == chain[q]);
                }
            }
            match first_issuer(recs, next, recs[cur as int].issuer_common_name@, 0) {
                Some(j) => lemma_walk_stops_at_self_signed(recs, j, next),
                None => {},
            }
        } else {
            assert forall|q: int| 0 <= q < next.len() - 1 implies !recs[next[q] as int].is_self_signed by {
                assert(next[q] == chain[q]);
            }
        }
    }
}

/// Running the resolver twice on equal record lists gives equal chain lists.
pub proof fn lemma_chains_deterministic(a: Seq<CertificateInfo>, b: Seq<CertificateInfo>)
    requires
        a == b,
    ensures
        chains_of(a) == chains_of(b),
{
}

/// A self-signed record that appears in a chain is the last element of that chain.
pub proof fn lemma_self_signed_ends_chain(recs: Seq<CertificateInfo>, k: int, p: int)
    requires
        0 <= k < chains_of(recs).len(),
        0 <= p < chains_of(recs)[k].len(),
        recs[chains_of(recs)[k][p] as int].is_self_signed,
    ensures
        p == chains_of(recs)[k].len() - 1,
{
    let l = leaf_candidates(recs, recs.len() as int)[k];
    assert(chains_of(recs)[k] == walk(recs, l, seq![]));
    lemma_walk_stops_at_self_signed(recs, l, seq![]);
}

proof fn lemma_leaf_candidates_contain(recs: Seq<CertificateInfo>, m: int, i: int)
    requires
        0 <= i < m <= recs.len(),
        recs.len() <= usize::MAX,
        is_leaf_candidate(recs[i]),
    ensures
        leaf_candidates(recs, m).contains(i as usize),
    decreases m,
{
    if i == m - 1 {
        assert(leaf_candidates(recs, m).last() == i as usize);
    } else {
        lemma_leaf_candidates_contain(recs, m - 1, i);
        let prev = leaf_candidates(recs, m - 1);
        let w = choose|w: int| 0 <= w < prev.len() && #[trigger] prev[w] == i as usize;
        if is_leaf_candidate(recs[m - 1]) {
            assert(leaf_candidates(recs, m)[w] == i as usize);
        }
    }
}

proof fn lemma_leaf_candidates_below(recs: Seq<CertificateInfo>, m: int)
    requires
        0 <= m <= recs.len(),
        recs.len() <= usize::MAX,
    ensures
        forall|k: int| 0 <= k < leaf_candidates(recs, m).len() ==> (#[trigger] leaf_candidates(recs, m)[k]) < m,
    decreases m,
{
    if m > 0 {
        lemma_leaf_candidates_below(recs, m - 1);
        let prev = leaf_candidates(recs, m - 1);
        assert forall|k: int| 0 <= k < leaf_candidates(recs, m).len() implies (#[trigger] leaf_candidates(recs, m)[k]) < m by {
            if k < prev.len() {
                assert(leaf_candidates(recs, m)[k] == prev[k]);
            }
        }
    }
}

/// Every record that is not a CA starts at least one chain.
pub proof fn lemma_leaf_coverage(recs: Seq<CertificateInfo>, i: int)
    requires
        0 <= i < recs.len(),
        recs.len() <= usize::MAX,
        !recs[i].is_ca,
    ensures
        exists|k: int| 0 <= k < chains_of(recs).len() && chains_of(recs)[k].len() > 0
            && chains_of(recs)[k][0] == i,
{
    let leaves = leaf_candidates(recs, recs.len() as int);
    lemma_leaf_candidates_contain(recs, recs.len() as int, i);
    let k = choose|k: int| 0 <= k < leaves.len() && #[trigger] leaves[k] == i as usize;
    let c = chains_of(recs)[k];
    assert(c == walk(recs, i as usize, seq![]));
    let first: Seq<usize> = seq![i as usize];
    assert(!seq![].contains(i as usize));
    assert(seq![].push(i as usize) == first);
    if !recs[i].is_self_signed {
        match first_issuer(recs, first, recs[i].issuer_common_name@, 0) {
            Some(j) => lemma_walk_extends(recs, j, first),
            None => {},
        }
    }
    assert(c.subrange(0, 1)[0] == c[0]);
}

/// Two records that each name the other as issuer, neither self-signed,
/// give chains of exactly two records: the walk does not loop.
pub proof fn lemma_two_record_cycle(recs: Seq<CertificateInfo>)
    requires
        recs.len() == 2,
        !recs[0].is_self_signed,
        !recs[1].is_self_signed,
        recs[0].issuer_common_name@ == recs[1].subject_common_name@,
        recs[1].issuer_common_name@ == recs[0].subject_common_name@,
    ensures
        chain_from(recs, 0) == seq![0usize, 1usize],
        chain_from(recs, 1) == seq![1usize, 0usize],
        forall|k: int| 0 <= k < chains_of(recs).len() ==> (#[trigger] chains_of(recs)[k]).len() == 2,
{
    let e: Seq<usize> = seq![];
    let a: Seq<usize> = seq![0usize];
    let b: Seq<usize> = seq![1usize];
    let ab: Seq<usize> = seq![0usize, 1usize];
    let ba: Seq<usize> = seq![1usize, 0usize];
    assert(!e.contains(0usize) && !e.contains(1usize));
    assert(e.push(0usize) == a && e.push(1usize) == b);
    assert(a.push(1usize) == ab && b.push(0usize) == ba);
    assert(!a.contains(1usize) && a.contains(0usize));
    assert(!b.contains(0usize) && b.contains(1usize));
    assert(ab.contains(0usize) && ab.contains(1usize));
    assert(ba.contains(0usize) && ba.contains(1usize));
    assert(first_issuer(recs, a, recs[0].issuer_common_name@, 1) == Some(1usize));
    assert(first_issuer(recs, a, recs[0].issuer_common_name@, 0) == Some(1usize));
    assert(first_issuer(recs, b, recs[1].issuer_common_name@, 2) == None::<usize>);
    assert(first_issuer(recs, b, recs[1].issuer_common_name@, 1) == None::<usize>);
    assert(first_issuer(recs, b, recs[1].issuer_common_name@, 0) == Some(0usize));
    assert(walk(recs, 1usize, ab) == ab);
    assert(walk(recs, 0usize, ba) == ba);
    assert(walk(recs, 0usize, a) == a);
    assert(walk(recs, 1usize, b) == b);
    assert(first_issuer(recs, ab, recs[1].issuer_common_name@, 2) == None::<usize>);
    assert(first_issuer(recs, ab, recs[1].issuer_common_name@, 1) == None::<usize>);
    assert(first_issuer(recs, ab, recs[1].issuer_common_name@, 0) == None::<usize>);
    assert(first_issuer(recs, ba, recs[0].issuer_common_name@, 2) == None::<usize>);
    assert(first_issuer(recs, ba, recs[0].issuer_common_name@, 1) == None::<usize>);
    assert(first_issuer(recs, ba, recs[0].issuer_common_name@, 0) == None::<usize>);
    assert(walk(recs, 1usize, a) == ab);
    assert(walk(recs, 0usize, b) == ba);
    assert(walk(recs, 0usize, e) == ab);
    assert(walk(recs, 1usize, e) == ba);
    assert(chain_from(recs, 0) == ab);
    assert(chain_from(recs, 1) == ba);
    let leaves = leaf_candidates(recs, 2);
    lemma_leaf_candidates_below(recs, 2);
    assert forall|k: int| 0 <= k < chains_of(recs).len() implies (#[trigger] chains_of(recs)[k]).len() == 2 by {
        assert(leaves[k] == 0usize || leaves[k] == 1usize);
    }
}

proof fn lemma_walk_valid(recs: Seq<CertificateInfo>, cur: usize, chain: Seq<usize>)
    requires
        recs.len() <= usize::MAX,
        cur < recs.len(),
        chain.no_duplicates(),
        forall|q: int| 0 <= q < chain.len() ==> chain[q] < recs.len(),
    ensures
        walk(recs, cur, chain).no_duplicates(),
        forall|q: int| 0 <= q < walk(recs, cur, chain).len() ==> walk(recs, cur, chain)[q] < recs.len(),
    decreases recs.len() - chain.len(),
{
    if !(chain.contains(cur) || chain.len() >= recs.len()) {
        let next = chain.push(cur);
        assert(next.no_duplicates()) by {
            assert forall|a: int, b: int| 0 <= a < next.len() && 0 <= b < next.len() && a != b implies next[a] != next[b] by {
                if a < chain.len() && b == chain.len() {
                    assert(chain.contains(chain[a]));
                } else if b < chain.len() && a == chain.len() {
                    assert(chain.contains(chain[b]));
                }
            }
        }
        assert(forall|q: int| 0 <= q < next.len() ==> next[q] < recs.len());
        if !recs[cur as int].is_self_signed {
            lemma_first_issuer_found(recs, next, recs[cur as int].issuer_common_name@, 0);
            match first_issuer(recs, next, recs[cur as int].issuer_common_name@, 0) {
                Some(j) => lemma_walk_valid(recs, j, next),
                None => {},
            }
        }
    }
}

/// Every chain lists distinct indices, each naming a record of the list.
pub proof fn lemma_chain_indices_valid(recs: Seq<CertificateInfo>, k: int)
    requires
        recs.len() <= usize::MAX,
        0 <= k < chains_of(recs).len(),
    ensures
        chains_of(recs)[k].no_duplicates(),
        forall|q: int| 0 <= q < chains_of(recs)[k].len() ==> chains_of(recs)[k][q] < recs.len(),
{
    let leaves = leaf_candidates(recs, recs.len() as int);
    lemma_leaf_candidates_below(recs, recs.len() as int);
    assert(leaves[k] < recs.len());
    assert(Seq::<usize>::empty().no_duplicates());
    lemma_walk_valid(recs, leaves[k], seq![]);
}

proof fn lemma_walk_head(recs: Seq<CertificateInfo>, cur: usize, chain: Seq<usize>)
    ensures
        walk(recs, cur, chain).len() > chain.len() ==> walk(recs, cur, chain)[chain.len() as int] == cur,
{
    lemma_walk_extends(recs, cur, chain);
    if !(chain.contains(cur) || chain.len() >= recs.len()) {
        let next = chain.push(cur);
        if !recs[cur as int].is_self_signed {
            match first_issuer(recs, next, recs[cur as int].issuer_common_name@, 0) {
                Some(j) => {
                    lemma_walk_extends(recs, j, next);
                    assert(walk(recs, j, next).subrange(0, next.len() as int)[chain.len() as int] == cur);
                },
                None => {},
            }
        }
    }
}

proof fn lemma_walk_links(recs: Seq<CertificateInfo>, cur: usize, chain: Seq<usize>)
    ensures
        forall|p: int| chain.len() <= p && p + 1 < walk(recs, cur, chain).len() ==>
            first_issuer(recs, walk(recs, cur, chain).subrange(0, p + 1),
                recs[walk(recs, cur, chain)[p] as int].issuer_common_name@, 0)
                == Some(#[trigger] walk(recs, cur, chain)[p + 1]),
    decreases recs.len() - chain.len(),
{
    if !(chain.contains(cur) || chain.len() >= recs.len()) {
        let next = chain.push(cur);
        if !recs[cur as int].is_self_signed {
            match first_issuer(recs, next, recs[cur as int].issuer_common_name@, 0) {
                Some(j) => {
                    let w = walk(recs, j, next);
                    lemma_walk_links(recs, j, next);
                    lemma_walk_extends(recs, j, next);
                    lemma_walk_head(recs, j, next);
                    assert forall|p: int| chain.len() <= p && p + 1 < w.len() implies
                        first_issuer(recs, w.subrange(0, p + 1), recs[w[p] as int].issuer_common_name@, 0)
                            == Some(#[trigger] w[p + 1]) by {
                        if p == chain.len() {
                            assert(w.subrange(0, next.len() as int)[p] == cur);
                            assert(w.subrange(0, p + 1) == next);
                        }
                    }
                },
                None => {},
            }
        }
    }
}

proof fn lemma_first_issuer_lowest(recs: Seq<CertificateInfo>, chain: Seq<usize>, cn: Seq<char>, from: int, j: usize)
    requires
        recs.len() <= usize::MAX,
        0 <= from,
        first_issuer(recs, chain, cn, from) == Some(j),
    ensures
        forall|i: int| from <= i < j ==> chain.contains(i as usize) || (#[trigger] recs[i]).subject_common_name@ != cn,
    decreases recs.len() - from,
{
    if from < recs.len() && !(!chain.contains(from as usize) && recs[from].subject_common_name@ == cn) {
        lemma_first_issuer_lowest(recs, chain, cn, from + 1, j);
    }
}

/// Each record after the first in a chain is, among the records not yet in
/// the chain, the one of lowest index whose subject common name is the
/// previous record's issuer common name.
pub proof fn lemma_lowest_index_issuer(recs: Seq<CertificateInfo>, k: int, p: int)
    requires
        recs.len() <= usize::MAX,
        0 <= k < chains_of(recs).len(),
        0 <= p,
        p + 1 < chains_of(recs)[k].len(),
    ensures
        ({
            let c = chains_of(recs)[k];
            let cn = recs[c[p] as int].issuer_common_name@;
            &&& !recs[c[p] as int].is_self_signed
            &&& c[p + 1] < recs.len()
            &&& !c.subrange(0, p + 1).contains(c[p + 1])
            &&& recs[c[p + 1] as int].subject_common_name@ == cn
            &&& forall|i: int| 0 <= i < c[p + 1] ==> c.subrange(0, p + 1).contains(i as usize)
                || (#[trigger] recs[i]).subject_common_name@ != cn
        }),
{
    let c = chains_of(recs)[k];
    let l = leaf_candidates(recs, recs.len() as int)[k];
    lemma_walk_links(recs, l, seq![]);
    lemma_walk_stops_at_self_signed(recs, l, seq![]);
    let cn = recs[c[p] as int].issuer_common_name@;
    assert(first_issuer(recs, c.subrange(0, p + 1), cn, 0) == Some(c[p + 1]));
    lemma_first_issuer_found(recs, c.subrange(0, p + 1), cn, 0);
    lemma_first_issuer_lowest(recs, c.subrange(0, p + 1), cn, 0, c[p + 1]);
    lemma_chain_indices_valid(recs, k);
    if recs[c[p] as int].is_self_signed {
        lemma_self_signed_ends_chain(recs, k, p);
    }
}

} // verus!
