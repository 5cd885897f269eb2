use vstd::prelude::*;
use vstd::string::*;

use crate::text::{is_prefix, last_index_of, lemma_last_index_of, str_starts_with};

verus! {

/// The stem of a file name: everything before the last `.`, except that a `.`
/// in the first position never separates an extension (a name such as
/// `.config` is its own stem).
pub open spec fn stem(name: Seq<char>) -> Seq<char> {
    match last_index_of(name, '.') {
        Some(i) => if i >= 1 {
            name.subrange(0, i)
        } else {
            name
        },
        None => name,
    }
}

/// The index of the first name in `names`, at or after position `i`, that
/// starts with `st`.
pub open spec fn first_match_from(names: Seq<Seq<char>>, st: Seq<char>, i: int) -> Option<int>
    decreases names.len() - i,
{
    if !(0 <= i < names.len()) {
        None
    } else if is_prefix(st, names[i]) {
        Some(i)
    } else {
        first_match_from(names, st, i + 1)
    }
}

/// The index of the first name in `names` that starts with `st`.
pub open spec fn first_match(names: Seq<Seq<char>>, st: Seq<char>) -> Option<int> {
    first_match_from(names, st, 0)
}

/// The name a compressed file ends up with: the first original name that the
/// compressed file's stem is a prefix of, or its own name when no original matches.
pub open spec fn reconciled_name(names: Seq<Seq<char>>, compressed: Seq<char>) -> Seq<char> {
    match first_match(names, stem(compressed)) {
        Some(i) => names[i],
        None => compressed,
    }
}

/// The whole reconciliation step as one value: for every compressed file name,
/// the pair of its current name and the name it is renamed to.
pub open spec fn rename_plan(names: Seq<Seq<char>>, compressed: Seq<Seq<char>>) -> Seq<
    (Seq<char>, Seq<char>),
> {
    compressed.map_values(|c: Seq<char>| (c, reconciled_name(names, c)))
}

/// Characterizes `first_match_from`: a hit is in range, matches, and nothing
/// before it (from `i` on) matches; a miss means nothing from `i` on matches.
pub proof fn lemma_first_match_from(names: Seq<Seq<char>>, st: Seq<char>, i: int)
    requires
        0 <= i,
    ensures
        match first_match_from(names, st, i) {
            Some(k) => i <= k < names.len() && is_prefix(st, names[k]) && (forall|m: int|
                i <= m < k ==> !is_prefix(st, names[m])),
            None => forall|m: int| i <= m < names.len() ==> !is_prefix(st, names[m]),
        },
    decreases names.len() - i,
{
    if 0 <= i < names.len() && !is_prefix(st, names[i]) {
        lemma_first_match_from(names, st, i + 1);
    }
}

/// One rename of the plan: the file currently called `from` is renamed to `to`;
/// the two are equal where no original name matched.
pub struct Rename {
    pub from: String,
    pub to: String,
}

impl DeepView for Rename {
    type V = (Seq<char>, Seq<char>);

    open spec fn deep_view(&self) -> Self::V {
        (self.from@, self.to@)
    }
}

/// The stem of `name`, as `Path::file_stem` reads it.
pub fn stem_of<'a>(name: &'a str) -> (r: &'a str)
    ensures
        r@ == stem(name@),
{
    let n = name.unicode_len();
    let ghost s = name@;
    let mut i: usize = n;
    while i > 1
        invariant
            i <= n,
            n == s.len(),
            s == name@,
            forall|m: int| i <= m < s.len() ==> s[m] != '.',
        decreases i,
    {
        if name.get_char(i - 1) == '.' {
            proof {
                lemma_last_index_of(s, '.');
                match last_index_of(s, '.') {
                    Some(k) => {
                        if k < i - 1 {
                            assert(s[i - 1] != '.');
                        }
                        if k > i - 1 {
                            assert(s[k] != '.');
                        }
                        assert(k == i - 1);
                    },
                    None => {
                        assert(s[i - 1] != '.');
                    },
                }
            }
            return name.substring_char(0, i - 1);
        }
        i -= 1;
    }
    proof {
        lemma_last_index_of(s, '.');
        match last_index_of(s, '.') {
            Some(k) => {
                assert(s[k] == '.');
                assert(k == 0);
            },
            None => {},
        }
    }
    name
}

/// The index of the first name in `names` that starts with `st`, or `None`
/// when no name does.
pub fn find_first_match(names: &Vec<String>, st: &str) -> (r: Option<usize>)
    ensures
        match r {
            Some(i) => i < names.len() && first_match(names.deep_view(), st@) == Some(i as int),
            None => first_match(names.deep_view(), st@) is None,
        },
{
    let ghost dv = names.deep_view();
    let n = names.len();
    assert(dv.len() == n);
    let mut i: usize = 0;
    while i < n
        invariant
            i <= n,
            n == dv.len(),
            dv == names.deep_view(),
            first_match(dv, st@) == first_match_from(dv, st@, i as int),
            forall|m: int| 0 <= m < names@.len() ==> dv[m] == names@[m]@,
        decreases n - i,
    {
        if str_starts_with(names[i].as_str(), st) {
            assert(first_match_from(dv, st@, i as int) == Some(i as int));
            return Some(i);
        }
        assert(first_match_from(dv, st@, i as int) == first_match_from(dv, st@, i as int + 1));
        i += 1;
    }
    assert(first_match_from(dv, st@, i as int) is None);
    None
}

/// Computes the reconciliation plan: for every name in `compressed`, the name
/// it is renamed to, which is the first name in `originals` that its stem is a
/// prefix of, or the compressed name itself when no original matches.
pub fn reconcile_plan(originals: &Vec<String>, compressed: &Vec<String>) -> (r: Vec<Rename>)
    ensures
        r.deep_view() == rename_plan(originals.deep_view(), compressed.deep_view()),
{
    let ghost ov = originals.deep_view();
    let ghost cv = compressed.deep_view();
    let mut r: Vec<Rename> = Vec::new();
    let n = compressed.len();
    assert(cv.len() == n);
    let mut i: usize = 0;
    while i < n
        invariant
            i <= n,
            n == cv.len(),
            ov == originals.deep_view(),
            cv == compressed.deep_view(),
            forall|m: int| 0 <= m < compressed@.len() ==> cv[m] == compressed@[m]@,
            forall|m: int| 0 <= m < originals@.len() ==> ov[m] == originals@[m]@,
            r.deep_view() == rename_plan(ov, cv.take(i as int)),
        decreases n - i,
    {
        let c = &compressed[i];
        let st = stem_of(c.as_str());
        let to: String = match find_first_match(originals, st) {
            Some(j) => originals[j].clone(),
            None => c.clone(),
        };
        assert(to@ == reconciled_name(ov, cv[i as int]));
        r.push(Rename { from: c.clone(), to });
        proof {
            assert(cv.take(i + 1 as int).drop_last() =~= cv.take(i as int));
            assert(cv.take(i + 1 as int).last() == cv[i as int]);
            assert(rename_plan(ov, cv.take(i + 1 as int)) =~= rename_plan(
                ov,
                cv.take(i as int),
            ).push((cv[i as int], reconciled_name(ov, cv[i as int]))));
            assert(r.deep_view() =~= rename_plan(ov, cv.take(i + 1 as int)));
        }
        i += 1;
    }
    proof {
        assert(cv.take(n as int) =~= cv);
    }
    r
}

/// Where some original name starts with a compressed file's stem, the file is
/// renamed to the first such original name.
pub proof fn lemma_prefix_match_restores(names: Seq<Seq<char>>, compressed: Seq<char>)
    requires
        exists|i: int| 0 <= i < names.len() && is_prefix(stem(compressed), #[trigger] names[i]),
    ensures
        exists|k: int|
            0 <= k < names.len() && reconciled_name(names, compressed) == names[k] && is_prefix(
                stem(compressed),
                #[trigger] names[k],
            ) && (forall|m: int| 0 <= m < k ==> !is_prefix(stem(compressed), names[m])),
{
    lemma_first_match_from(names, stem(compressed), 0);
    match first_match(names, stem(compressed)) {
        Some(k) => {
            assert(reconciled_name(names, compressed) == names[k]);
        },
        None => {
            let i = choose|i: int|
                0 <= i < names.len() && is_prefix(stem(compressed), #[trigger] names[i]);
            assert(!is_prefix(stem(compressed), names[i]));
        },
    }
}

/// Reconciliation is idempotent: where every original name already reconciles
/// to itself, a second run maps every name that the first run produced back to
/// that same name, so running the step twice changes nothing beyond the first run.
pub proof fn lemma_reconcile_idempotent(names: Seq<Seq<char>>, compressed: Seq<char>)
    requires
        forall|i: int| 0 <= i < names.len() ==> reconciled_name(
            names,
            #[trigger] names[i],
        ) == names[i],
    ensures
        reconciled_name(names, reconciled_name(names, compressed)) == reconciled_name(
            names,
            compressed,
        ),
{
    lemma_first_match_from(names, stem(compressed), 0);
    match first_match(names, stem(compressed)) {
        Some(i) => {
            assert(reconciled_name(names, compressed) == names[i]);
        },
        None => {},
    }
}

} // verus!
