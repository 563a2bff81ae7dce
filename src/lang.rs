use vstd::prelude::*;
use vstd::string::StrSliceExecFns;

verus! {

/// A file name that names no language.
#[derive(Debug)]
pub struct FileNameError {
    pub path: String,
}

/// Whether `s` ends in a slash, or in a `.` component after a slash, which
/// paths ignore.
pub open spec fn ends_ignorable(s: Seq<char>) -> bool {
    ||| s.len() > 0 && s.last() == '/'
    ||| s.len() >= 2 && s.last() == '.' && s[s.len() - 2] == '/'
}

/// `s` without the slashes and `.` components at its end.
pub open spec fn trim_tail(s: Seq<char>) -> Seq<char>
    decreases s.len(),
{
    if ends_ignorable(s) {
        trim_tail(s.drop_last())
    } else {
        s
    }
}

/// The position of the last `c` in `s`, or -1.
pub open spec fn last_index(s: Seq<char>, c: char) -> int
    decreases s.len(),
{
    if s.len() == 0 {
        -1
    } else if s.last() == c {
        s.len() - 1
    } else {
        last_index(s.drop_last(), c)
    }
}

/// The last component of a slash-separated path, trailing slashes and `.`
/// components left out ("a/pl.json/." has "pl.json").
pub open spec fn base_name(s: Seq<char>) -> Seq<char> {
    let t = trim_tail(s);
    t.subrange(last_index(t, '/') + 1, t.len() as int)
}

/// A name without its extension: the text before its last dot, unless that
/// dot starts the name.
pub open spec fn stem(name: Seq<char>) -> Seq<char> {
    if last_index(name, '.') > 0 {
        name.subrange(0, last_index(name, '.'))
    } else {
        name
    }
}

/// A component that names no file.
pub open spec fn is_special_name(name: Seq<char>) -> bool {
    name.len() == 0 || name == seq!['.'] || name == seq!['.', '.']
}

pub proof fn lemma_last_index_range(s: Seq<char>, c: char)
    ensures
        -1 <= last_index(s, c) < s.len(),
    decreases s.len(),
{
    if s.len() > 0 {
        lemma_last_index_range(s.drop_last(), c);
    }
}

/// The position of the last `c` among the first `end` characters of `s`.
fn find_last(s: &str, end: usize, c: char) -> (r: Option<usize>)
    requires
        end <= s@.len(),
    ensures
        match r {
            Some(j) => j == last_index(s@.subrange(0, end as int), c),
            None => last_index(s@.subrange(0, end as int), c) == -1,
        },
{
    let mut j: usize = end;
    while j > 0
        invariant
            j <= end <= s@.len(),
            last_index(s@.subrange(0, end as int), c) == last_index(s@.subrange(0, j as int), c),
        decreases j,
    {
        let d = s.get_char(j - 1);
        proof {
            let t = s@.subrange(0, j as int);
            assert(t.drop_last() =~= s@.subrange(0, j - 1));
        }
        if d == c {
            return Some(j - 1);
        }
        j -= 1;
    }
    None
}

/// Whether the first `e` characters of `s` end in a slash or a `.`
/// component.
fn ignorable_end(s: &str, e: usize) -> (r: bool)
    requires
        e <= s@.len(),
    ensures
        r == ends_ignorable(s@.subrange(0, e as int)),
{
    if e == 0 {
        return false;
    }
    let last = s.get_char(e - 1);
    if last == '/' {
        return true;
    }
    e >= 2 && last == '.' && s.get_char(e - 2) == '/'
}

/// The language tag that a translation file's path names: its last
/// component without the extension ("dir/pl.json" names "pl").
pub fn lang_from_filename(filename: &str) -> (r: Result<String, FileNameError>)
    ensures
        match r {
            Ok(tag) => !is_special_name(base_name(filename@)) && tag@ == stem(base_name(filename@)),
            Err(e) => is_special_name(base_name(filename@)) && e.path@ == filename@,
        },
{
    let n = filename.unicode_len();
    let mut e: usize = n;
    assert(filename@.subrange(0, n as int) =~= filename@);
    while ignorable_end(filename, e)
        invariant
            e <= n,
            n == filename@.len(),
            trim_tail(filename@) == trim_tail(filename@.subrange(0, e as int)),
        decreases e,
    {
        proof {
            assert(filename@.subrange(0, e as int).drop_last() =~= filename@.subrange(0, e - 1));
        }
        e -= 1;
    }
    let ghost t = filename@.subrange(0, e as int);
    assert(trim_tail(t) == t);
    let slash = find_last(filename, e, '/');
    proof {
        lemma_last_index_range(t, '/');
    }
    let from = match slash {
        Some(j) => j + 1,
        None => 0,
    };
    let name = filename.substring_char(from, e);
    assert(name@ == base_name(filename@));
    let len = name.unicode_len();
    let is_special = len == 0 || (len == 1 && name.get_char(0) == '.') || (len == 2 && name.get_char(0) == '.' && name.get_char(1) == '.');
    assert(is_special == is_special_name(name@)) by {
        if len == 1 && name@[0] == '.' {
            assert(name@ =~= seq!['.']);
        }
        if len == 2 && name@[0] == '.' && name@[1] == '.' {
            assert(name@ =~= seq!['.', '.']);
        }
    }
    if is_special {
        return Err(FileNameError { path: filename.to_owned() });
    }
    assert(name@.subrange(0, len as int) =~= name@);
    let dot = find_last(name, len, '.');
    proof {
        lemma_last_index_range(name@, '.');
    }
    match dot {
        Some(j) if j > 0 => Ok(name.substring_char(0, j).to_owned()),
        _ => Ok(name.to_owned()),
    }
}

} // verus!
