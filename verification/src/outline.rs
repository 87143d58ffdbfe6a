//! Text set in a frame of asterisks, and lists set in brackets.

use vstd::prelude::*;
use vstd::string::{StringExecFns, StringSliceAdditionalSpecFns};

verus! {

/// `n` times the character `c`.
pub open spec fn run_of(c: char, n: nat) -> Seq<char> {
    Seq::new(n, |i: int| c)
}

/// The five lines of the frame around `text`, for a text that is `width`
/// wide: a line of asterisks, a line of spaces between two asterisks, the
/// text between two asterisks and two spaces, and the first two lines again
/// in reverse order.
pub open spec fn outline_of(text: Seq<char>, width: nat) -> Seq<Seq<char>> {
    seq![
        run_of('*', width + 4),
        seq!['*'] + run_of(' ', width + 2) + seq!['*'],
        seq!['*', ' '] + text + seq![' ', '*'],
        seq!['*'] + run_of(' ', width + 2) + seq!['*'],
        run_of('*', width + 4),
    ]
}

/// The texts `items` one after the other, with `sep` between each two.
pub open spec fn joined(items: Seq<Seq<char>>, sep: Seq<char>) -> Seq<char>
    decreases items.len(),
{
    if items.len() == 0 {
        Seq::empty()
    } else if items.len() == 1 {
        items[0]
    } else {
        joined(items.drop_last(), sep) + sep + items.last()
    }
}

/// What each of `lines` holds.
pub open spec fn texts_of(lines: Seq<String>) -> Seq<Seq<char>> {
    lines.map_values(|s: String| s@)
}

/// `n` times the one character of `unit`.
fn run(unit: &str, n: usize) -> (s: String)
    requires
        unit@.len() == 1,
    ensures
        s@ == run_of(unit@[0], n as nat),
{
    let mut s = String::new();
    let mut i: usize = 0;
    while i < n
        invariant
            i <= n,
            unit@.len() == 1,
            s@ == run_of(unit@[0], i as nat),
        decreases n - i,
    {
        s.append(unit);
        i += 1;
        assert(s@ =~= run_of(unit@[0], i as nat));
    }
    s
}

/// Sets `text` in a frame of asterisks, five lines high. The frame is as
/// wide as the text is long in bytes, plus four.
pub fn outline(text: &str) -> (lines: Vec<String>)
    requires
        text.spec_bytes().len() + 4 <= usize::MAX,
    ensures
        texts_of(lines@) == outline_of(text@, text.spec_bytes().len()),
{
    proof {
        reveal_strlit("*");
        reveal_strlit(" ");
        reveal_strlit("* ");
        reveal_strlit(" *");
    }
    let width = text.len();
    let mut blank = String::from_str("*");
    blank.append(run(" ", width + 2).as_str());
    blank.append("*");
    let mut middle = String::from_str("* ");
    middle.append(text);
    middle.append(" *");
    let mut lines: Vec<String> = Vec::new();
    lines.push(run("*", width + 4));
    lines.push(blank.clone());
    lines.push(middle);
    lines.push(blank);
    lines.push(run("*", width + 4));
    proof {
        let expected = outline_of(text@, text.spec_bytes().len());
        assert("*"@ =~= seq!['*']);
        assert("* "@ =~= seq!['*', ' ']);
        assert(" *"@ =~= seq![' ', '*']);
        assert(texts_of(lines@)[1] =~= expected[1]);
        assert(texts_of(lines@)[2] =~= expected[2]);
        assert(texts_of(lines@)[3] =~= expected[3]);
        assert(texts_of(lines@) =~= expected);
    }
    lines
}

/// Sets `items` in square brackets, with a comma and a space between each
/// two.
pub fn bracketed(items: &Vec<String>) -> (s: String)
    ensures
        s@ == "["@ + joined(texts_of(items@), ", "@) + "]"@,
{
    let mut s = String::from_str("[");
    let mut i: usize = 0;
    while i < items.len()
        invariant
            i <= items.len(),
            s@ == "["@ + joined(texts_of(items@).take(i as int), ", "@),
        decreases items.len() - i,
    {
        let ghost before = texts_of(items@).take(i as int);
        if i > 0 {
            s.append(", ");
        }
        s.append(items[i].as_str());
        i += 1;
        proof {
            let now = texts_of(items@).take(i as int);
            assert(now.drop_last() =~= before);
            assert(now.last() == items@[i - 1]@);
            assert(s@ =~= "["@ + joined(now, ", "@));
        }
    }
    assert(texts_of(items@).take(i as int) =~= texts_of(items@));
    s.append("]");
    s
}

} // verus!
