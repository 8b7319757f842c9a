use vstd::prelude::*;

use crate::node::strs;

verus! {

/// A line that opens or closes a metadata block: it starts with `---`.
pub open spec fn is_fence_line(s: Seq<char>) -> bool {
    s.len() >= 3 && s[0] == '-' && s[1] == '-' && s[2] == '-'
}

/// The first fence line at or after position `i`.
pub open spec fn fence_from(ls: Seq<Seq<char>>, i: int) -> Option<int>
    decreases ls.len() - i,
{
    if i < 0 || i >= ls.len() {
        None
    } else if is_fence_line(ls[i]) {
        Some(i)
    } else {
        fence_from(ls, i + 1)
    }
}

/// The lines `ls`, each preceded by a line break.
pub open spec fn joined(ls: Seq<Seq<char>>) -> Seq<char>
    decreases ls.len(),
{
    if ls.len() == 0 {
        Seq::empty()
    } else {
        joined(ls.drop_last()) + seq!['\n'] + ls.last()
    }
}

/// The metadata block that opens a document of lines `ls`: from a first line
/// that is a fence up to the next fence line, both written as `---`.
pub open spec fn front_matter_of(ls: Seq<Seq<char>>) -> Option<Seq<char>> {
    if ls.len() == 0 || !is_fence_line(ls[0]) {
        None
    } else {
        match fence_from(ls, 1) {
            Some(k) => Some(seq!['-', '-', '-'] + joined(ls.subrange(1, k)) + seq!['\n', '-', '-', '-']),
            None => None,
        }
    }
}

/// Whether `s` starts with `---`.
pub fn is_fence(s: &str) -> (r: bool)
    ensures
        r == is_fence_line(s@),
{
    s.unicode_len() >= 3 && s.get_char(0) == '-' && s.get_char(1) == '-' && s.get_char(2) == '-'
}

/// The metadata block at the head of a document given by its lines, if it has one.
pub fn front_matter(lines: &Vec<String>) -> (r: Option<String>)
    ensures
        match front_matter_of(strs(lines@)) {
            Some(t) => r matches Some(s) && s@ == t,
            None => r is None,
        },
{
    let ghost ls = strs(lines@);
    if lines.len() == 0 || !is_fence(lines[0].as_str()) {
        return None;
    }
    proof {
        reveal_strlit("---");
        reveal_strlit("\n");
    }
    let mut contents = String::from_str("---");
    let mut i: usize = 1;
    while i < lines.len()
        invariant
            ls == strs(lines@),
            1 <= i <= lines@.len(),
            is_fence_line(ls[0]),
            fence_from(ls, 1) == fence_from(ls, i as int),
            contents@ == seq!['-', '-', '-'] + joined(ls.subrange(1, i as int)),
        decreases lines@.len() - i,
    {
        proof {
            reveal_strlit("---");
            reveal_strlit("\n");
        }
        contents.append("\n");
        if is_fence(lines[i].as_str()) {
            contents.append("---");
            assert(contents@ =~= seq!['-', '-', '-'] + joined(ls.subrange(1, i as int)) + seq![
                '\n',
                '-',
                '-',
                '-',
            ]);
            return Some(contents);
        }
        contents.append(lines[i].as_str());
        assert(ls.subrange(1, i + 1).drop_last() =~= ls.subrange(1, i as int));
        assert(ls[i as int] == lines@[i as int]@);
        assert(contents@ =~= seq!['-', '-', '-'] + joined(ls.subrange(1, i + 1)));
        i = i + 1;
    }
    None
}

/// A hidden entry: its name starts with a dot and is not `.` itself.
pub open spec fn hidden_name(s: Seq<char>) -> bool {
    s.len() > 0 && s[0] == '.' && s != seq!['.']
}

/// A discarded entry: its name ends with `_deleted`.
pub open spec fn deleted_name(s: Seq<char>) -> bool {
    s.len() >= 8 && s.subrange(s.len() - 8, s.len() as int) == seq!['_', 'd', 'e', 'l', 'e', 't', 'e', 'd']
}

pub fn is_hidden(name: &str) -> (r: bool)
    ensures
        r == hidden_name(name@),
{
    let n = name.unicode_len();
    if n == 0 || name.get_char(0) != '.' {
        return false;
    }
    if n == 1 {
        assert(name@ =~= seq!['.']);
        return false;
    }
    assert(name@.len() != 1);
    true
}

pub fn is_deleted(name: &str) -> (r: bool)
    ensures
        r == deleted_name(name@),
{
    let n = name.unicode_len();
    if n < 8 {
        return false;
    }
    let tail = name.substring_char(n - 8, n);
    let r = tail.get_char(0) == '_' && tail.get_char(1) == 'd' && tail.get_char(2) == 'e' && tail.get_char(3)
        == 'l' && tail.get_char(4) == 'e' && tail.get_char(5) == 't' && tail.get_char(6) == 'e'
        && tail.get_char(7) == 'd';
    assert(r == (tail@ =~= seq!['_', 'd', 'e', 'l', 'e', 't', 'e', 'd']));
    r
}

} // verus!
