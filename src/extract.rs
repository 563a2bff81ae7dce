use vstd::prelude::*;
use vstd::string::StrSliceExecFns;
use crate::reconcile::contains_path;
use crate::tree::{PathV, copy_path};

verus! {

broadcast use vstd::std_specs::vec::group_vec_axioms;

/// One translation call found in source text: its key, split at the dots.
#[derive(Debug)]
pub struct Translated {
    pub segments: Vec<String>,
}

/// Why keys could not be read from source text.
#[derive(Debug)]
pub enum ExtractError {
    /// The call pattern did not compile; `translation_parts` is proved never
    /// to return it.
    BadPattern,
}

/// A translation call: `_(`, a quoted key of at least two dot-separated
/// parts without whitespace, and `)`. The key is the first group.
pub const CALL_PATTERN: &'static str = r#"_\(["']((\S+\.)+\S+)["']\)"#;

/// The text of the first group of each match of `pattern` in `content`, in
/// order of the matches.
pub uninterp spec fn first_groups(pattern: Seq<char>, content: Seq<char>) -> Seq<Seq<char>>;

/// Relies on `regex::Regex::new`, which compiles `pattern` or returns an
/// error, and on `Regex::captures_iter`, which yields the successive
/// non-overlapping matches in `content`; what they find depends on the
/// pattern and the text alone. A match without a first group gives "".
/// `Regex::new` fails only on bad syntax or a pattern over the size limit,
/// neither of which holds for the call pattern.
#[verifier::external_body]
fn regex_first_groups(pattern: &str, content: &str) -> (r: Option<Vec<String>>)
    ensures
        r matches Some(v) ==> v.deep_view() == first_groups(pattern@, content@),
        pattern@ == CALL_PATTERN@ ==> r is Some,
{
    let re = regex::Regex::new(pattern).ok()?;
    Some(re.captures_iter(content).map(|c| c.get(1).map_or(String::new(), |m| m.as_str().to_string())).collect())
}

/// The parts of `s` between dots; `s` without a dot is one part.
pub open spec fn split_dots(s: Seq<char>) -> Seq<Seq<char>>
    decreases s.len(),
{
    if s.len() == 0 {
        seq![Seq::empty()]
    } else {
        let p = split_dots(s.drop_last());
        if s.last() == '.' {
            p.push(Seq::empty())
        } else {
            p.update(p.len() - 1, p.last().push(s.last()))
        }
    }
}

pub proof fn lemma_split_dots_len(s: Seq<char>)
    ensures
        split_dots(s).len() >= 1,
    decreases s.len(),
{
    if s.len() > 0 {
        lemma_split_dots_len(s.drop_last());
    }
}

/// The parts of `s` between dots.
pub fn split_key(s: &str) -> (r: Vec<String>)
    ensures
        r.deep_view() == split_dots(s@),
{
    let n = s.unicode_len();
    let mut out: Vec<String> = Vec::new();
    let mut start: usize = 0;
    let mut i: usize = 0;
    assert(s@.subrange(0, 0) =~= Seq::<char>::empty());
    assert(out.deep_view().push(s@.subrange(0, 0)) =~= split_dots(s@.subrange(0, 0)));
    while i < n
        invariant
            n == s@.len(),
            start <= i <= n,
            out.deep_view().push(s@.subrange(start as int, i as int)) == split_dots(s@.subrange(0, i as int)),
        decreases n - i,
    {
        let ghost before = out.deep_view();
        let ghost seg = s@.subrange(start as int, i as int);
        let c = s.get_char(i);
        proof {
            let next = s@.subrange(0, i + 1);
            assert(next.drop_last() =~= s@.subrange(0, i as int));
            assert(next.last() == c);
            lemma_split_dots_len(s@.subrange(0, i as int));
        }
        if c == '.' {
            let part = s.substring_char(start, i).to_owned();
            out.push(part);
            assert(out.deep_view() =~= before.push(seg));
            start = i + 1;
            assert(s@.subrange(start as int, i + 1) =~= Seq::<char>::empty());
            assert(out.deep_view().push(s@.subrange(start as int, i + 1)) =~= split_dots(s@.subrange(0, i + 1)));
        } else {
            assert(s@.subrange(start as int, i + 1) =~= seg.push(c));
            assert(out.deep_view().push(s@.subrange(start as int, i + 1)) =~= before.push(seg).update(
                before.len() as int,
                seg.push(c),
            ));
        }
        i += 1;
    }
    let last = s.substring_char(start, n).to_owned();
    let ghost before = out.deep_view();
    out.push(last);
    assert(out.deep_view() =~= before.push(s@.subrange(start as int, n as int)));
    assert(s@.subrange(0, n as int) =~= s@);
    out
}

/// Every segment of `p` is non-empty.
pub open spec fn nonempty_parts(p: PathV) -> bool {
    forall|i: int| 0 <= i < p.len() ==> #[trigger] p[i].len() > 0
}

/// The keys named by the first groups `gs`, in order; a group with an empty
/// part is a malformed call and names none.
pub open spec fn keys_of_groups(gs: Seq<Seq<char>>) -> Seq<PathV>
    decreases gs.len(),
{
    if gs.len() == 0 {
        Seq::empty()
    } else {
        let rest = keys_of_groups(gs.drop_last());
        let p = split_dots(gs.last());
        if nonempty_parts(p) {
            rest.push(p)
        } else {
            rest
        }
    }
}

/// The keys of the calls `ts`.
pub open spec fn parts_view(ts: Seq<Translated>) -> Seq<PathV> {
    ts.map_values(|t: Translated| t.segments.deep_view())
}

/// Whether no segment of `p` is empty.
fn all_nonempty(p: &Vec<String>) -> (r: bool)
    ensures
        r == nonempty_parts(p.deep_view()),
{
    let mut i: usize = 0;
    while i < p.len()
        invariant
            i <= p.len(),
            forall|j: int| 0 <= j < i ==> #[trigger] p@[j]@.len() > 0,
        decreases p.len() - i,
    {
        if p[i].as_str().is_empty() {
            assert(p.deep_view()[i as int].len() == 0);
            return false;
        }
        i += 1;
    }
    assert forall|j: int| 0 <= j < p.deep_view().len() implies #[trigger] p.deep_view()[j].len() > 0 by {
        assert(p.deep_view()[j] == p@[j]@);
    }
    true
}

/// The calls for the given first groups, in order, leaving out each group
/// with an empty part.
pub fn parts_of_groups(groups: &Vec<String>) -> (r: Vec<Translated>)
    ensures
        parts_view(r@) == keys_of_groups(groups.deep_view()),
        forall|i: int| 0 <= i < r.len() ==> nonempty_parts(#[trigger] r@[i].segments.deep_view()),
{
    let ghost gv = groups.deep_view();
    let mut r: Vec<Translated> = Vec::new();
    let mut i: usize = 0;
    assert(gv.subrange(0, 0) =~= Seq::<Seq<char>>::empty());
    assert(parts_view(r@) =~= Seq::<PathV>::empty());
    while i < groups.len()
        invariant
            i <= groups.len(),
            gv == groups.deep_view(),
            parts_view(r@) == keys_of_groups(gv.subrange(0, i as int)),
            forall|j: int| 0 <= j < r.len() ==> nonempty_parts(#[trigger] r@[j].segments.deep_view()),
        decreases groups.len() - i,
    {
        let ghost before = r@;
        let segments = split_key(groups[i].as_str());
        proof {
            let next = gv.subrange(0, i + 1);
            assert(next.drop_last() =~= gv.subrange(0, i as int));
            assert(next.last() == groups@[i as int]@);
        }
        if all_nonempty(&segments) {
            r.push(Translated { segments });
            assert(parts_view(r@) =~= parts_view(before).push(split_dots(groups@[i as int]@)));
        }
        i += 1;
    }
    assert(gv.subrange(0, groups.len() as int) =~= gv);
    r
}

/// Every well-formed translation call in `content`, in order; a call whose
/// key has an empty part is skipped.
pub fn translation_parts(content: &str) -> (r: Result<Vec<Translated>, ExtractError>)
    ensures
        r is Ok,
        r matches Ok(ts) ==> parts_view(ts@) == keys_of_groups(first_groups(CALL_PATTERN@, content@)),
        r matches Ok(ts) ==> forall|i: int| 0 <= i < ts.len() ==> nonempty_parts(#[trigger] ts@[i].segments.deep_view()),
{
    match regex_first_groups(CALL_PATTERN, content) {
        None => Err(ExtractError::BadPattern),
        Some(groups) => Ok(parts_of_groups(&groups)),
    }
}

/// Adds to `keys` each call's path that it does not hold yet, in order.
pub fn add_reference_keys(keys: &mut Vec<Vec<String>>, parts: &Vec<Translated>)
    ensures
        old(keys).deep_view().no_duplicates() ==> final(keys).deep_view().no_duplicates(),
        forall|p: PathV| #[trigger] final(keys).deep_view().contains(p) <==> (old(keys).deep_view().contains(p)
            || exists|i: int| 0 <= i < parts.len() && parts@[i].segments.deep_view() == p),
{
    let ghost start = keys.deep_view();
    let mut i: usize = 0;
    while i < parts.len()
        invariant
            i <= parts.len(),
            start.no_duplicates() ==> keys.deep_view().no_duplicates(),
            forall|p: PathV| #[trigger] keys.deep_view().contains(p) <==> (start.contains(p)
                || exists|j: int| 0 <= j < i && parts@[j].segments.deep_view() == p),
        decreases parts.len() - i,
    {
        let ghost before = keys.deep_view();
        let ghost q = parts@[i as int].segments.deep_view();
        if !contains_path(keys, &parts[i].segments) {
            let p = copy_path(&parts[i].segments);
            keys.push(p);
            assert(keys.deep_view() =~= before.push(q));
            assert(keys.deep_view()[before.len() as int] == q);
        }
        assert forall|p: PathV| #[trigger] keys.deep_view().contains(p) <==> (start.contains(p)
            || exists|j: int| 0 <= j < i + 1 && parts@[j].segments.deep_view() == p) by {
            if keys.deep_view().contains(p) && !before.contains(p) {
                assert(p == q);
            }
            if exists|j: int| 0 <= j < i + 1 && parts@[j].segments.deep_view() == p {
                let j = choose|j: int| 0 <= j < i + 1 && parts@[j].segments.deep_view() == p;
                if j == i {
                    if !before.contains(q) {
                        assert(keys.deep_view()[before.len() as int] == q);
                    }
                }
            }
            if before.contains(p) {
                let k = choose|k: int| 0 <= k < before.len() && before[k] == p;
                assert(keys.deep_view()[k] == p);
            }
        }
        i += 1;
    }
}

} // verus!
