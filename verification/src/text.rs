//! Text-level helpers: decimal rendering of numbers, colon search, and the
//! final path component, together with their specifications.

use vstd::prelude::*;

verus! {

/// The character for one decimal digit.
pub open spec fn digit_char(d: int) -> char
    recommends
        0 <= d < 10,
{
    if d == 0 {
        '0'
    } else if d == 1 {
        '1'
    } else if d == 2 {
        '2'
    } else if d == 3 {
        '3'
    } else if d == 4 {
        '4'
    } else if d == 5 {
        '5'
    } else if d == 6 {
        '6'
    } else if d == 7 {
        '7'
    } else if d == 8 {
        '8'
    } else {
        '9'
    }
}

/// The usual decimal rendering of a non-negative integer, most significant
/// digit first, with no leading zeros (except for the number zero itself).
pub open spec fn dec_rep(n: int) -> Seq<char>
    recommends
        n >= 0,
    decreases n,
{
    if n < 10 {
        seq![digit_char(n)]
    } else {
        dec_rep(n / 10) + seq![digit_char(n % 10)]
    }
}

/// Whether the text contains a colon anywhere.
pub open spec fn contains_colon(s: Seq<char>) -> bool {
    exists|i: int| 0 <= i < s.len() && s[i] == ':'
}

/// Appending one character to a text keeps every colon it had; the result
/// contains a colon exactly when the text did or the new character is one.
pub proof fn lemma_contains_colon_push(s: Seq<char>, c: char)
    ensures
        contains_colon(s.push(c)) == (contains_colon(s) || c == ':'),
{
    if contains_colon(s) {
        let i = choose|i: int| 0 <= i < s.len() && s[i] == ':';
        assert(s.push(c)[i] == ':');
    }
    if c == ':' {
        assert(s.push(c)[s.len() as int] == ':');
    }
    if contains_colon(s.push(c)) && c != ':' {
        let i = choose|i: int| 0 <= i < s.push(c).len() && s.push(c)[i] == ':';
        assert(s[i] == ':');
    }
}

/// Index where the final path component begins: one past the last `/`,
/// or `0` when the path has no `/` at all.
pub open spec fn start_of_file_name(p: Seq<char>) -> int
    decreases p.len(),
{
    if p.len() == 0 {
        0
    } else if p[p.len() - 1] == '/' {
        p.len() as int
    } else {
        start_of_file_name(p.drop_last())
    }
}

/// The final path component: everything after the last `/`.
pub open spec fn file_name_of(p: Seq<char>) -> Seq<char> {
    p.subrange(start_of_file_name(p), p.len() as int)
}

pub proof fn lemma_start_of_file_name_bounds(p: Seq<char>)
    ensures
        0 <= start_of_file_name(p) <= p.len(),
    decreases p.len(),
{
    if p.len() != 0 && p[p.len() - 1] != '/' {
        lemma_start_of_file_name_bounds(p.drop_last());
    }
}

/// The final path component never contains a `/`, and the path is exactly
/// what precedes it followed by the component itself.
pub proof fn lemma_file_name_of_is_last_component(p: Seq<char>)
    ensures
        0 <= start_of_file_name(p) <= p.len(),
        forall|i: int|
            start_of_file_name(p) <= i < p.len() ==> p[i] != '/',
        p =~= p.subrange(0, start_of_file_name(p)) + file_name_of(p),
        start_of_file_name(p) > 0 ==> p[start_of_file_name(p) - 1] == '/',
    decreases p.len(),
{
    lemma_start_of_file_name_bounds(p);
    if p.len() != 0 && p[p.len() - 1] != '/' {
        lemma_file_name_of_is_last_component(p.drop_last());
        lemma_start_of_file_name_bounds(p.drop_last());
        assert(forall|i: int|
            start_of_file_name(p) <= i < p.len() - 1 ==> p[i] == p.drop_last()[i]);
    }
}

/// Appending one character moves the start of the file name to the very end
/// when the character is a `/`, and otherwise leaves it alone.
pub proof fn lemma_start_of_file_name_push(p: Seq<char>, c: char)
    ensures
        start_of_file_name(p.push(c)) == if c == '/' {
            p.len() as int + 1
        } else {
            start_of_file_name(p)
        },
{
    assert(p.push(c).len() == p.len() + 1);
    assert(p.push(c)[p.len() as int] == c);
    if c != '/' {
        assert(p.push(c).drop_last() =~= p);
    }
}

/// The character at a position of a text, counted in characters.
pub fn char_at(s: &String, i: usize) -> (c: char)
    requires
        i < s@.len(),
    ensures
        c == s@[i as int],
{
    s.as_str().get_char(i)
}

/// The final path component of a path written with `/` separators.
pub fn file_name_part<'a>(p: &'a str) -> (r: &'a str)
    ensures
        r@ == file_name_of(p@),
{
    let len = p.unicode_len();
    let mut start: usize = 0;
    let mut i: usize = 0;
    while i < len
        invariant
            start <= i <= len,
            len == p@.len(),
            start == start_of_file_name(p@.subrange(0, i as int)),
        decreases len - i,
    {
        let c = p.get_char(i);
        proof {
            assert(p@.subrange(0, i as int).push(p@[i as int]) =~= p@.subrange(
                0,
                i as int + 1,
            ));
            lemma_start_of_file_name_push(p@.subrange(0, i as int), p@[i as int]);
        }
        if c == '/' {
            start = i + 1;
        }
        i = i + 1;
    }
    proof {
        assert(p@.subrange(0, len as int) =~= p@);
    }
    p.substring_char(start, len)
}

/// One decimal digit as a string slice.
fn digit_to_str(d: usize) -> (r: &'static str)
    requires
        d < 10,
    ensures
        r@ =~= seq![digit_char(d as int)],
{
    proof {
        reveal_strlit("0");
        reveal_strlit("1");
        reveal_strlit("2");
        reveal_strlit("3");
        reveal_strlit("4");
        reveal_strlit("5");
        reveal_strlit("6");
        reveal_strlit("7");
        reveal_strlit("8");
        reveal_strlit("9");
    }
    match d {
        0 => "0",
        1 => "1",
        2 => "2",
        3 => "3",
        4 => "4",
        5 => "5",
        6 => "6",
        7 => "7",
        8 => "8",
        _ => "9",
    }
}

/// Renders a number in decimal, most significant digit first.
pub fn usize_to_string(n: usize) -> (r: String)
    ensures
        r@ == dec_rep(n as int),
    decreases n,
{
    if n < 10 {
        let s = digit_to_str(n);
        s.to_owned()
    } else {
        proof {
            assert(n / 10 < n && n / 10 >= 1) by (nonlinear_arith)
                requires
                    n >= 10,
            ;
        }
        let mut s = usize_to_string(n / 10);
        let d = digit_to_str(n % 10);
        s.append(d);
        proof {
            assert(s@ =~= dec_rep(n as int));
        }
        s
    }
}

} // verus!
