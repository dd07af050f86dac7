//! "Did you mean" suggestions: the field name closest to a mistyped key,
//! by edit distance.

use vstd::prelude::*;
use crate::text::{str_chars, str_to_string};
use crate::types::Type;

verus! {

pub open spec fn min3(x: nat, y: nat, z: nat) -> nat {
    if x <= y && x <= z {
        x
    } else if y <= z {
        y
    } else {
        z
    }
}

/// The Levenshtein distance: the fewest single-character insertions,
/// deletions and substitutions that turn `a` into `b`.
pub open spec fn lev(a: Seq<char>, b: Seq<char>) -> nat
    decreases a.len() + b.len(),
{
    if a.len() == 0 {
        b.len()
    } else if b.len() == 0 {
        a.len()
    } else {
        min3(
            lev(a.drop_last(), b) + 1,
            lev(a, b.drop_last()) + 1,
            lev(a.drop_last(), b.drop_last()) + if a.last() == b.last() {
                0nat
            } else {
                1nat
            },
        )
    }
}

/// The distance is at most the longer length.
proof fn lemma_lev_bound(a: Seq<char>, b: Seq<char>)
    ensures
        lev(a, b) <= if a.len() >= b.len() {
            a.len()
        } else {
            b.len()
        },
    decreases a.len() + b.len(),
{
    if a.len() > 0 && b.len() > 0 {
        lemma_lev_bound(a.drop_last(), b.drop_last());
    }
}

/// The edit distance between two strings, in characters.
pub fn edit_distance(a: &str, b: &str) -> (r: usize)
    requires
        a@.len() < usize::MAX,
        b@.len() < usize::MAX,
    ensures
        r == lev(a@, b@),
{
    let a = str_chars(a);
    let b = str_chars(b);
    let n = a.len();
    let m = b.len();
    let ghost sa = a@;
    let ghost sb = b@;
    // prev[j] is the distance between the first i - 1 characters of `a`
    // and the first j of `b`.
    let mut prev: Vec<usize> = Vec::new();
    let mut j: usize = 0;
    while j <= m
        invariant
            j <= m + 1,
            m == sb.len(),
            m < usize::MAX,
            prev@.len() == j,
            forall|k: int| 0 <= k < j ==> prev@[k] == lev(sa.take(0), sb.take(k)),
        decreases m + 1 - j,
    {
        proof {
            assert(sa.take(0).len() == 0);
        }
        prev.push(j);
        j += 1;
    }
    let mut i: usize = 1;
    while i <= n
        invariant
            1 <= i <= n + 1,
            n == sa.len(),
            m == sb.len(),
            n < usize::MAX,
            m < usize::MAX,
            a@ == sa,
            b@ == sb,
            prev@.len() == m + 1,
            forall|k: int| 0 <= k <= m ==> prev@[k] == lev(sa.take(i - 1), sb.take(k)),
        decreases n + 1 - i,
    {
        let mut cur: Vec<usize> = Vec::new();
        proof {
            assert(sb.take(0).len() == 0);
            assert(sa.take(i as int).len() == i);
        }
        cur.push(i);
        let mut j: usize = 1;
        while j <= m
            invariant
                1 <= i <= n,
                1 <= j <= m + 1,
                n == sa.len(),
                m == sb.len(),
                n < usize::MAX,
                m < usize::MAX,
                a@ == sa,
                b@ == sb,
                prev@.len() == m + 1,
                forall|k: int| 0 <= k <= m ==> prev@[k] == lev(sa.take(i - 1), sb.take(k)),
                cur@.len() == j,
                forall|k: int| 0 <= k < j ==> cur@[k] == lev(sa.take(i as int), sb.take(k)),
            decreases m + 1 - j,
        {
            let ghost x = sa.take(i as int);
            let ghost y = sb.take(j as int);
            proof {
                assert(x.drop_last() =~= sa.take(i - 1));
                assert(y.drop_last() =~= sb.take(j - 1));
                assert(x.last() == sa[i - 1]);
                assert(y.last() == sb[j - 1]);
                lemma_lev_bound(sa.take(i - 1), sb.take(j as int));
                lemma_lev_bound(x, sb.take(j - 1));
                lemma_lev_bound(sa.take(i - 1), sb.take(j - 1));
            }
            let cost: usize = if a[i - 1] == b[j - 1] {
                0
            } else {
                1
            };
            let del = prev[j] + 1;
            let ins = cur[j - 1] + 1;
            let sub = prev[j - 1] + cost;
            let best = if del <= ins && del <= sub {
                del
            } else if ins <= sub {
                ins
            } else {
                sub
            };
            cur.push(best);
            j += 1;
        }
        prev = cur;
        i += 1;
    }
    proof {
        assert(sa.take(n as int) =~= sa);
        assert(sb.take(m as int) =~= sb);
    }
    prev[m]
}

/// The suggestion among `names` for `key`, with its distance: the first
/// name at the smallest distance, when that distance is at most 2.
pub open spec fn suggestion(key: Seq<char>, names: Seq<Seq<char>>) -> Option<(Seq<char>, nat)>
    decreases names.len(),
{
    if names.len() == 0 {
        Option::None
    } else {
        let prev = suggestion(key, names.drop_last());
        let d = lev(key, names.last());
        match prev {
            Option::Some((_, bd)) => if d < bd && d <= 2 {
                Option::Some((names.last(), d))
            } else {
                prev
            },
            Option::None => if d <= 2 {
                Option::Some((names.last(), d))
            } else {
                Option::None
            },
        }
    }
}

/// The names of some fields.
pub open spec fn field_names(fields: Seq<(String, Type)>) -> Seq<Seq<char>> {
    Seq::new(fields.len(), |i: int| fields[i].0@)
}

/// The field name closest to `key` (for "did you mean" hints): the first
/// at the smallest edit distance, when that distance is at most 2.
pub fn suggest_field(key: &str, fields: &[(String, Type)]) -> (r: Option<String>)
    requires
        key@.len() < usize::MAX,
        forall|i: int| 0 <= i < fields@.len() ==> (#[trigger] fields@[i]).0@.len() < usize::MAX,
    ensures
        match suggestion(key@, field_names(fields@)) {
            Option::Some((name, _)) => r matches Option::Some(s) && s@ == name,
            Option::None => r is None,
        },
{
    let ghost names = field_names(fields@);
    let mut best: Option<String> = Option::None;
    let mut best_dist: usize = usize::MAX;
    let mut i: usize = 0;
    proof {
        assert(names.take(0) =~= Seq::<Seq<char>>::empty());
    }
    while i < fields.len()
        invariant
            0 <= i <= fields@.len(),
            names == field_names(fields@),
            key@.len() < usize::MAX,
            forall|k: int| 0 <= k < fields@.len() ==> (#[trigger] fields@[k]).0@.len() < usize::MAX,
            match suggestion(key@, names.take(i as int)) {
                Option::Some((name, d)) => best matches Option::Some(s) && s@ == name && best_dist
                    == d,
                Option::None => best is None && best_dist == usize::MAX,
            },
        decreases fields@.len() - i,
    {
        proof {
            assert(names.take(i + 1).drop_last() =~= names.take(i as int));
            assert(names.take(i + 1).last() == fields@[i as int].0@);
        }
        let dist = edit_distance(key, fields[i].0.as_str());
        if dist < best_dist && dist <= 2 {
            best_dist = dist;
            best = Option::Some(str_to_string(fields[i].0.as_str()));
        }
        i += 1;
    }
    proof {
        assert(names.take(fields@.len() as int) =~= names);
    }
    best
}

} // verus!
