use vstd::prelude::*;
use vstd::string::StrSliceExecFns;
use vstd::string::StringExecFns;
use crate::tree::{
    JsonTranslationFile, Node, PathV, get_node, settable, set_node, keys_node, copy_path, node_wf,
    lemma_keys_match_get,
};

verus! {

broadcast use vstd::seq_lib::group_filter_ensures, vstd::std_specs::vec::group_vec_axioms;

/// Marks a value that was filled in automatically and still awaits a human
/// translation.
pub const UNHANDLED_MARKER: &'static str = "---UHANDLED---";

/// The paths of `a` that `b` lacks, in the order of `a`.
pub open spec fn without(a: Seq<PathV>, b: Seq<PathV>) -> Seq<PathV> {
    a.filter(|p: PathV| !b.contains(p))
}

/// The segments of `p`, each preceded by a dot.
pub open spec fn dotted(p: PathV) -> Seq<char>
    decreases p.len(),
{
    if p.len() == 0 {
        Seq::empty()
    } else {
        dotted(p.drop_last()) + seq!['.'] + p.last()
    }
}

/// The placeholder put at a missing path: the marker, then the dotted path.
pub open spec fn placeholder_text(p: PathV) -> Seq<char> {
    UNHANDLED_MARKER@ + dotted(p)
}

/// `m` occurs in `s` as a contiguous run.
pub open spec fn has_infix(s: Seq<char>, m: Seq<char>) -> bool {
    exists|i: int| 0 <= i && i + m.len() <= s.len() && #[trigger] s.subrange(i, i + m.len()) == m
}


/// Whether two key paths have the same segments.
pub fn same_path(a: &Vec<String>, b: &Vec<String>) -> (r: bool)
    ensures
        r == (a.deep_view() == b.deep_view()),
{
    if a.len() != b.len() {
        assert(a.deep_view().len() != b.deep_view().len());
        return false;
    }
    let mut i: usize = 0;
    while i < a.len()
        invariant
            i <= a.len(),
            a.len() == b.len(),
            forall|j: int| 0 <= j < i ==> #[trigger] a@[j]@ == b@[j]@,
        decreases a.len() - i,
    {
        if a[i] != b[i] {
            assert(a.deep_view()[i as int] != b.deep_view()[i as int]);
            return false;
        }
        i += 1;
    }
    assert(a.deep_view() =~= b.deep_view());
    true
}

/// Whether `p` is one of `ps`.
pub fn contains_path(ps: &Vec<Vec<String>>, p: &Vec<String>) -> (r: bool)
    ensures
        r == ps.deep_view().contains(p.deep_view()),
{
    let mut i: usize = 0;
    while i < ps.len()
        invariant
            i <= ps.len(),
            forall|j: int| 0 <= j < i ==> #[trigger] ps.deep_view()[j] != p.deep_view(),
        decreases ps.len() - i,
    {
        if same_path(&ps[i], p) {
            assert(ps.deep_view()[i as int] == p.deep_view());
            return true;
        }
        i += 1;
    }
    false
}

/// The paths of `a` that are not in `b`, in the order of `a`.
pub fn key_difference(a: &Vec<Vec<String>>, b: &Vec<Vec<String>>) -> (r: Vec<Vec<String>>)
    ensures
        r.deep_view() == without(a.deep_view(), b.deep_view()),
{
    let ghost av = a.deep_view();
    let ghost bv = b.deep_view();
    let ghost pred = |p: PathV| !bv.contains(p);
    let mut r: Vec<Vec<String>> = Vec::new();
    let mut i: usize = 0;
    proof {
        reveal(Seq::filter);
        assert(av.subrange(0, 0) =~= Seq::<PathV>::empty());
        assert(r.deep_view() =~= av.subrange(0, 0).filter(pred));
    }
    while i < a.len()
        invariant
            i <= a.len(),
            av == a.deep_view(),
            bv == b.deep_view(),
            pred == (|p: PathV| !bv.contains(p)),
            r.deep_view() == av.subrange(0, i as int).filter(pred),
        decreases a.len() - i,
    {
        let ghost before = r.deep_view();
        let inside = contains_path(b, &a[i]);
        if !inside {
            let p = copy_path(&a[i]);
            r.push(p);
            assert(r.deep_view() =~= before.push(av[i as int]));
        } else {
            assert(r.deep_view() =~= before);
        }
        proof {
            reveal(Seq::filter);
            let next = av.subrange(0, i + 1);
            assert(next.drop_last() =~= av.subrange(0, i as int));
            assert(next.last() == av[i as int]);
        }
        i += 1;
    }
    assert(av.subrange(0, a.len() as int) =~= av);
    r
}

/// The paths that a reference set and a file disagree on.
#[derive(Debug)]
pub struct DiffResult {
    /// Referenced paths that the file lacks.
    pub missing: Vec<Vec<String>>,
    /// Paths of the file that nothing references.
    pub excess: Vec<Vec<String>>,
}

/// Compares the reference paths with the leaves of `tree`.
pub fn diff(reference: &Vec<Vec<String>>, tree: &JsonTranslationFile) -> (r: DiffResult)
    ensures
        r.missing.deep_view() == without(reference.deep_view(), keys_node(tree.node())),
        r.excess.deep_view() == without(keys_node(tree.node()), reference.deep_view()),
{
    let file_keys = tree.keys();
    let missing = key_difference(reference, &file_keys);
    let excess = key_difference(&file_keys, reference);
    DiffResult { missing, excess }
}

/// The placeholder for `path`: the marker followed by each segment after a
/// dot.
pub fn placeholder(path: &Vec<String>) -> (r: String)
    ensures
        r@ == placeholder_text(path.deep_view()),
{
    let mut r = String::from_str(UNHANDLED_MARKER);
    let mut i: usize = 0;
    while i < path.len()
        invariant
            i <= path.len(),
            r@ == UNHANDLED_MARKER@ + dotted(path.deep_view().subrange(0, i as int)),
        decreases path.len() - i,
    {
        r.append(".");
        r.append(path[i].as_str());
        proof {
            reveal_strlit(".");
            let next = path.deep_view().subrange(0, i + 1);
            assert(next.drop_last() =~= path.deep_view().subrange(0, i as int));
            assert(next.last() == path@[i as int]@);
        }
        assert(r@ =~= UNHANDLED_MARKER@ + dotted(path.deep_view().subrange(0, i + 1)));
        i += 1;
    }
    assert(path.deep_view().subrange(0, path.len() as int) =~= path.deep_view());
    r
}

/// Whether `m` occurs in `s`.
pub fn contains_text(s: &str, m: &str) -> (r: bool)
    ensures
        r == has_infix(s@, m@),
{
    let n = s.unicode_len();
    let k = m.unicode_len();
    if k > n {
        return false;
    }
    let mut i: usize = 0;
    while i <= n - k
        invariant
            n == s@.len(),
            k == m@.len(),
            k <= n,
            i <= n - k + 1,
            forall|a: int| 0 <= a < i ==> #[trigger] s@.subrange(a, a + k) != m@,
        decreases n - i,
    {
        let mut j: usize = 0;
        let mut same = true;
        while j < k && same
            invariant
                n == s@.len(),
                k == m@.len(),
                i + k <= n,
                j <= k,
                forall|b: int| 0 <= b < j ==> s@[i + b] == m@[b],
                !same ==> j < k && s@[i + j] != m@[j as int],
            decreases k - j, if same { 1int } else { 0int },
        {
            if s.get_char(i + j) != m.get_char(j) {
                same = false;
            } else {
                j += 1;
            }
        }
        if j == k {
            assert(s@.subrange(i as int, i + k) =~= m@);
            return true;
        }
        assert(s@.subrange(i as int, i + k)[j as int] != m@[j as int]);
        i += 1;
    }
    assert forall|a: int| 0 <= a && a + m@.len() <= s@.len() implies #[trigger] s@.subrange(a, a + m@.len()) != m@ by {
        assert(a < i);
    }
    false
}


/// What goes at a missing path.
#[derive(Debug)]
pub enum Fill {
    /// A finished value.
    Text(String),
    /// The source file's value, which the translation provider turns into
    /// the value.
    Translate(String),
}

/// Why a file could not be completed; each carries the path concerned.
#[derive(Debug)]
pub enum ReconcileError {
    /// The source-of-truth file itself lacks the path.
    SourceIncomplete(Vec<String>),
    /// The source-of-truth file has no leaf at the path, so there is nothing
    /// to hand to the translation provider.
    NotInSource(Vec<String>),
    /// The source value still holds the placeholder marker.
    TranslatesPlaceholder(Vec<String>),
    /// The path runs through a leaf of the file.
    StructuralConflict(Vec<String>),
}

/// A fill in the abstract.
pub enum FillV {
    Text(Seq<char>),
    Translate(Seq<char>),
}

/// A reconciliation error in the abstract.
pub enum ErrorV {
    SourceIncomplete(PathV),
    NotInSource(PathV),
    TranslatesPlaceholder(PathV),
    StructuralConflict(PathV),
}

impl View for Fill {
    type V = FillV;

    open spec fn view(&self) -> FillV {
        match self {
            Fill::Text(s) => FillV::Text(s@),
            Fill::Translate(s) => FillV::Translate(s@),
        }
    }
}

impl View for ReconcileError {
    type V = ErrorV;

    open spec fn view(&self) -> ErrorV {
        match self {
            ReconcileError::SourceIncomplete(p) => ErrorV::SourceIncomplete(p.deep_view()),
            ReconcileError::NotInSource(p) => ErrorV::NotInSource(p.deep_view()),
            ReconcileError::TranslatesPlaceholder(p) => ErrorV::TranslatesPlaceholder(p.deep_view()),
            ReconcileError::StructuralConflict(p) => ErrorV::StructuralConflict(p.deep_view()),
        }
    }
}

/// How a missing path `p` is filled. `source` is the source-of-truth tree,
/// given only where a translation provider is configured as well.
pub open spec fn fill_spec(p: PathV, is_source: bool, source: Option<Node>) -> Result<FillV, ErrorV> {
    if is_source {
        Err(ErrorV::SourceIncomplete(p))
    } else {
        match source {
            Some(src) => match get_node(src, p) {
                None => Err(ErrorV::NotInSource(p)),
                Some(v) => if has_infix(v, UNHANDLED_MARKER@) {
                    Err(ErrorV::TranslatesPlaceholder(p))
                } else {
                    Ok(FillV::Translate(v))
                },
            },
            None => Ok(FillV::Text(placeholder_text(p))),
        }
    }
}

/// The fills for `ps` in order, or the error of the first path that has none.
pub open spec fn plan_spec(ps: Seq<PathV>, is_source: bool, source: Option<Node>) -> Result<Seq<(PathV, FillV)>, ErrorV>
    decreases ps.len(),
{
    if ps.len() == 0 {
        Ok(Seq::empty())
    } else {
        match plan_spec(ps.drop_last(), is_source, source) {
            Err(e) => Err(e),
            Ok(fs) => match fill_spec(ps.last(), is_source, source) {
                Err(e) => Err(e),
                Ok(f) => Ok(fs.push((ps.last(), f))),
            },
        }
    }
}

/// The tree after setting each `(path, value)` of `fs` in order, or the
/// first path that runs through a leaf.
pub open spec fn apply_spec(n: Node, fs: Seq<(PathV, Seq<char>)>) -> Result<Node, PathV>
    decreases fs.len(),
{
    if fs.len() == 0 {
        Ok(n)
    } else if !settable(n, fs[0].0) {
        Err(fs[0].0)
    } else {
        apply_spec(set_node(n, fs[0].0, fs[0].1), fs.drop_first())
    }
}

pub open spec fn source_node(source: Option<&JsonTranslationFile>) -> Option<Node> {
    match source {
        Some(t) => Some(t.node()),
        None => None,
    }
}

pub open spec fn fill_result_view(r: Result<Fill, ReconcileError>) -> Result<FillV, ErrorV> {
    match r {
        Ok(f) => Ok(f@),
        Err(e) => Err(e@),
    }
}

pub open spec fn plan_view(fs: Seq<(Vec<String>, Fill)>) -> Seq<(PathV, FillV)> {
    fs.map_values(|f: (Vec<String>, Fill)| (f.0.deep_view(), f.1@))
}

pub open spec fn plan_result_view(r: Result<Vec<(Vec<String>, Fill)>, ReconcileError>) -> Result<Seq<(PathV, FillV)>, ErrorV> {
    match r {
        Ok(fs) => Ok(plan_view(fs@)),
        Err(e) => Err(e@),
    }
}

pub open spec fn values_view(fs: Seq<(Vec<String>, String)>) -> Seq<(PathV, Seq<char>)> {
    fs.map_values(|f: (Vec<String>, String)| (f.0.deep_view(), f.1@))
}

/// How to fill the missing `path` of a file. `is_source` says that the file
/// is the source of truth; `source` is that file's tree where a translation
/// provider is configured too, and `None` otherwise.
pub fn fill_for(path: &Vec<String>, is_source: bool, source: Option<&JsonTranslationFile>) -> (r: Result<Fill, ReconcileError>)
    ensures
        fill_result_view(r) == fill_spec(path.deep_view(), is_source, source_node(source)),
{
    if is_source {
        return Err(ReconcileError::SourceIncomplete(copy_path(path)));
    }
    match source {
        Some(src) => match src.get(path.as_slice()) {
            None => Err(ReconcileError::NotInSource(copy_path(path))),
            Some(v) => {
                if contains_text(v.as_str(), UNHANDLED_MARKER) {
                    Err(ReconcileError::TranslatesPlaceholder(copy_path(path)))
                } else {
                    Ok(Fill::Translate(v.clone()))
                }
            },
        },
        None => Ok(Fill::Text(placeholder(path))),
    }
}

proof fn lemma_plan_err_sticks(ps: Seq<PathV>, i: int, is_source: bool, source: Option<Node>)
    requires
        0 <= i <= ps.len(),
        plan_spec(ps.subrange(0, i), is_source, source) is Err,
    ensures
        plan_spec(ps, is_source, source) == plan_spec(ps.subrange(0, i), is_source, source),
    decreases ps.len() - i,
{
    if i < ps.len() {
        let next = ps.subrange(0, i + 1);
        assert(next.drop_last() =~= ps.subrange(0, i));
        lemma_plan_err_sticks(ps, i + 1, is_source, source);
    } else {
        assert(ps.subrange(0, i) =~= ps);
    }
}

/// The fill of every missing path, in order; the error of the first path
/// that cannot be filled.
pub fn plan_fills(missing: &Vec<Vec<String>>, is_source: bool, source: Option<&JsonTranslationFile>) -> (r: Result<Vec<(Vec<String>, Fill)>, ReconcileError>)
    ensures
        plan_result_view(r) == plan_spec(missing.deep_view(), is_source, source_node(source)),
{
    let ghost mv = missing.deep_view();
    let ghost src = source_node(source);
    let mut out: Vec<(Vec<String>, Fill)> = Vec::new();
    let mut i: usize = 0;
    assert(mv.subrange(0, 0) =~= Seq::<PathV>::empty());
    assert(plan_view(out@) =~= Seq::empty());
    while i < missing.len()
        invariant
            i <= missing.len(),
            mv == missing.deep_view(),
            src == source_node(source),
            plan_spec(mv.subrange(0, i as int), is_source, src) == Ok::<Seq<(PathV, FillV)>, ErrorV>(plan_view(out@)),
        decreases missing.len() - i,
    {
        let f = fill_for(&missing[i], is_source, source);
        proof {
            let next = mv.subrange(0, i + 1);
            assert(next.drop_last() =~= mv.subrange(0, i as int));
            assert(next.last() == mv[i as int]);
        }
        match f {
            Err(e) => {
                proof {
                    lemma_plan_err_sticks(mv, i + 1, is_source, src);
                }
                return Err(e);
            },
            Ok(fill) => {
                let ghost before = out@;
                let p = copy_path(&missing[i]);
                out.push((p, fill));
                assert(plan_view(out@) =~= plan_view(before).push((mv[i as int], fill@)));
            },
        }
        i += 1;
    }
    assert(mv.subrange(0, missing.len() as int) =~= mv);
    Ok(out)
}

/// Sets every `(path, value)` of `fills` in order. Returns whether the tree
/// changed, or the first path that runs through a leaf, in which case the
/// tree is left as it was.
pub fn apply_fills(tree: &mut JsonTranslationFile, fills: &Vec<(Vec<String>, String)>) -> (r: Result<bool, ReconcileError>)
    ensures
        match r {
            Ok(changed) => changed == (fills.len() > 0) && apply_spec(old(tree).node(), values_view(fills@))
                == Ok::<Node, PathV>(final(tree).node()),
            Err(e) => e@ is StructuralConflict && apply_spec(old(tree).node(), values_view(fills@))
                == Err::<Node, PathV>(e@->StructuralConflict_0) && *final(tree) == *old(tree),
        },
{
    let ghost fv = values_view(fills@);
    let mut work = tree.duplicate();
    let mut i: usize = 0;
    assert(fv.subrange(0, fv.len() as int) =~= fv);
    while i < fills.len()
        invariant
            i <= fills.len(),
            fv == values_view(fills@),
            apply_spec(tree.node(), fv) == apply_spec(work.node(), fv.subrange(i as int, fv.len() as int)),
        decreases fills.len() - i,
    {
        let ghost rest = fv.subrange(i as int, fv.len() as int);
        assert(rest[0] == (fills@[i as int].0.deep_view(), fills@[i as int].1@));
        assert(rest.drop_first() =~= fv.subrange(i + 1, fv.len() as int));
        let path = &fills[i].0;
        if !work.can_set(path.as_slice()) {
            return Err(ReconcileError::StructuralConflict(copy_path(path)));
        }
        work.set(path.as_slice(), fills[i].1.clone());
        i += 1;
    }
    *tree = work;
    Ok(fills.len() > 0)
}


/// A path is in `without(a, b)` exactly when it is in `a` and not in `b`.
pub proof fn lemma_without_contains(a: Seq<PathV>, b: Seq<PathV>)
    ensures
        forall|p: PathV| #[trigger] without(a, b).contains(p) <==> (a.contains(p) && !b.contains(p)),
    decreases a.len(),
{
    reveal(Seq::filter);
    if a.len() > 0 {
        let init = a.drop_last();
        lemma_without_contains(init, b);
        assert forall|p: PathV| #[trigger] without(a, b).contains(p) <==> (a.contains(p) && !b.contains(p)) by {
            if a.contains(p) && !b.contains(p) {
                let i = choose|i: int| 0 <= i < a.len() && a[i] == p;
                if i < a.len() - 1 {
                    assert(init[i] == p);
                }
            }
            if without(a, b).contains(p) {
                if without(init, b).contains(p) {
                    let i = choose|i: int| 0 <= i < init.len() && init[i] == p;
                    assert(a[i] == p);
                } else {
                    assert(a[a.len() - 1] == p);
                }
            }
        }
    }
}

/// The difference splits both sides: a referenced path is in the file or
/// missing, never both; a path of the file is referenced or excess, never
/// both; and nothing else is missing or excess.
pub proof fn lemma_diff_partitions(reference: Seq<PathV>, file_keys: Seq<PathV>)
    ensures
        forall|p: PathV| reference.contains(p) ==>
            (file_keys.contains(p) != #[trigger] without(reference, file_keys).contains(p)),
        forall|p: PathV| file_keys.contains(p) ==>
            (reference.contains(p) != #[trigger] without(file_keys, reference).contains(p)),
        forall|p: PathV| #[trigger] without(reference, file_keys).contains(p) ==> reference.contains(p),
        forall|p: PathV| #[trigger] without(file_keys, reference).contains(p) ==> file_keys.contains(p),
{
    lemma_without_contains(reference, file_keys);
    lemma_without_contains(file_keys, reference);
}

/// In a file whose branches have unique child names, a path is missing
/// exactly when it is referenced and `get` finds no leaf there, and excess
/// exactly when `get` finds a leaf there and it is not referenced.
pub proof fn lemma_missing_means_absent(reference: Seq<PathV>, n: Node, p: PathV)
    requires
        node_wf(n),
    ensures
        without(reference, keys_node(n)).contains(p) <==> (reference.contains(p) && get_node(n, p) is None),
        without(keys_node(n), reference).contains(p) <==> (get_node(n, p) is Some && !reference.contains(p)),
{
    lemma_without_contains(reference, keys_node(n));
    lemma_without_contains(keys_node(n), reference);
    lemma_keys_match_get(n, p);
}

/// A file that has every referenced path gets no fill, whatever kind of
/// file it is, and applying no fill leaves its tree unchanged and unwritten.
pub proof fn lemma_complete_file_untouched(
    reference: Seq<PathV>,
    n: Node,
    is_source: bool,
    source: Option<Node>,
)
    requires
        forall|p: PathV| reference.contains(p) ==> #[trigger] keys_node(n).contains(p),
    ensures
        without(reference, keys_node(n)).len() == 0,
        plan_spec(without(reference, keys_node(n)), is_source, source) == Ok::<Seq<(PathV, FillV)>, ErrorV>(Seq::empty()),
        apply_spec(n, Seq::empty()) == Ok::<Node, PathV>(n),
{
    lemma_without_contains(reference, keys_node(n));
    let m = without(reference, keys_node(n));
    if m.len() > 0 {
        assert(m.contains(m[0]));
    }
}

/// The source-of-truth file is never filled: any missing path there stops
/// the plan before anything is set, with the first such path.
pub proof fn lemma_source_never_filled(missing: Seq<PathV>, source: Option<Node>)
    requires
        missing.len() > 0,
    ensures
        plan_spec(missing, true, source) == Err::<Seq<(PathV, FillV)>, ErrorV>(ErrorV::SourceIncomplete(missing[0])),
    decreases missing.len(),
{
    if missing.len() > 1 {
        lemma_source_never_filled(missing.drop_last(), source);
        assert(missing.drop_last()[0] == missing[0]);
    } else {
        assert(missing.drop_last().len() == 0);
        assert(plan_spec(missing.drop_last(), true, source) == Ok::<Seq<(PathV, FillV)>, ErrorV>(Seq::empty()));
        assert(missing.last() == missing[0]);
    }
}

/// A source value that holds the marker is never handed to translation.
pub proof fn lemma_placeholder_never_translated(p: PathV, src: Node, v: Seq<char>)
    requires
        get_node(src, p) == Some(v),
        has_infix(v, UNHANDLED_MARKER@),
    ensures
        fill_spec(p, false, Some(src)) == Err::<FillV, ErrorV>(ErrorV::TranslatesPlaceholder(p)),
{
}

} // verus!
