//! The pure part of the document source: splitting a raw document's lines
//! into the frontmatter block and the body block.
//!
//! A document embeds its metadata between two delimiter lines (three
//! dashes, possibly surrounded by blanks or a carriage return). Each
//! delimiter line toggles the frontmatter state; delimiter lines belong to
//! neither block.

use vstd::prelude::*;

verus! {

/// The blank characters a delimiter line may carry around its dashes.
pub open spec fn is_ws(c: char) -> bool {
    c == ' ' || c == '\t' || c == '\r'
}

/// `s` with its leading blanks removed.
pub open spec fn trim_left(s: Seq<char>) -> Seq<char>
    decreases s.len(),
{
    if s.len() > 0 && is_ws(s[0]) {
        trim_left(s.drop_first())
    } else {
        s
    }
}

/// `s` with its trailing blanks removed.
pub open spec fn trim_right(s: Seq<char>) -> Seq<char>
    decreases s.len(),
{
    if s.len() > 0 && is_ws(s.last()) {
        trim_right(s.drop_last())
    } else {
        s
    }
}

/// `s` with blanks removed from both ends.
pub open spec fn trimmed(s: Seq<char>) -> Seq<char> {
    trim_right(trim_left(s))
}

/// A delimiter line: exactly three dashes once blanks are stripped.
pub open spec fn is_delimiter_line(s: Seq<char>) -> bool {
    trimmed(s) == seq!['-', '-', '-']
}

/// Whether the character is one of the blanks a delimiter line tolerates.
fn is_ws_char(c: char) -> (r: bool)
    ensures
        r == is_ws(c),
{
    c == ' ' || c == '\t' || c == '\r'
}

/// Whether this line is a frontmatter delimiter.
pub fn line_is_delimiter(line: &str) -> (r: bool)
    ensures
        r == is_delimiter_line(line@),
{
    let n = line.unicode_len();
    let ghost s = line@;
    let mut lo: usize = 0;
    proof {
        assert(s.skip(0) =~= s);
    }
    while lo < n && is_ws_char(line.get_char(lo))
        invariant
            n == s.len(),
            line@ == s,
            lo <= n,
            trim_left(s) == trim_left(s.skip(lo as int)),
        decreases n - lo,
    {
        proof {
            assert(s.skip(lo as int)[0] == s[lo as int]);
            assert(s.skip(lo as int).drop_first() =~= s.skip(lo + 1 as int));
        }
        lo = lo + 1;
    }
    proof {
        if lo < n {
            assert(!is_ws(s.skip(lo as int)[0]));
        }
        assert(trim_left(s) == s.skip(lo as int));
    }
    let mut hi: usize = n;
    proof {
        assert(s.skip(lo as int).take(n - lo as int) =~= s.skip(lo as int));
    }
    while hi > lo && is_ws_char(line.get_char(hi - 1))
        invariant
            n == s.len(),
            line@ == s,
            lo <= hi <= n,
            trim_left(s) == s.skip(lo as int),
            trim_right(s.skip(lo as int)) == trim_right(
                s.skip(lo as int).take(hi - lo as int),
            ),
        decreases hi,
    {
        proof {
            let cur = s.skip(lo as int).take(hi - lo as int);
            assert(cur.last() == s[hi - 1 as int]);
            assert(cur.drop_last() =~= s.skip(lo as int).take(hi - 1 - lo as int));
        }
        hi = hi - 1;
    }
    proof {
        let cur = s.skip(lo as int).take(hi - lo as int);
        if hi > lo {
            assert(cur.last() == s[hi - 1 as int]);
            assert(!is_ws(cur.last()));
        }
        assert(trim_right(cur) == cur);
        assert(trimmed(s) == s.skip(lo as int).take(hi - lo as int));
    }
    if hi - lo != 3 {
        proof {
            assert(trimmed(s).len() == hi - lo);
            assert(seq!['-', '-', '-'].len() == 3);
        }
        return false;
    }
    let c0 = line.get_char(lo);
    let c1 = line.get_char(lo + 1);
    let c2 = line.get_char(lo + 2);
    let r = c0 == '-' && c1 == '-' && c2 == '-';
    proof {
        let cur = s.skip(lo as int).take(3);
        assert(cur[0] == s[lo as int]);
        assert(cur[1] == s[lo + 1 as int]);
        assert(cur[2] == s[lo + 2 as int]);
        if r {
            assert(cur =~= seq!['-', '-', '-']);
        } else {
            assert(cur != seq!['-', '-', '-']);
        }
    }
    r
}

/// The frontmatter block, the body block, and whether the line stream
/// ends still inside the frontmatter. Each delimiter line toggles the
/// state and belongs to neither block; every other line goes to the
/// frontmatter when inside and to the body when outside.
pub open spec fn split_state(lines: Seq<Seq<char>>) -> (Seq<Seq<char>>, Seq<Seq<char>>, bool)
    decreases lines.len(),
{
    if lines.len() == 0 {
        (Seq::empty(), Seq::empty(), false)
    } else {
        let (fm, body, inb) = split_state(lines.drop_last());
        let l = lines.last();
        if is_delimiter_line(l) {
            (fm, body, !inb)
        } else if inb {
            (fm.push(l), body, inb)
        } else {
            (fm, body.push(l), inb)
        }
    }
}

/// Split a document's lines into its frontmatter lines and its body
/// lines, dropping the delimiter lines themselves.
pub fn split_front_matter(lines: &Vec<String>) -> (r: (Vec<String>, Vec<String>))
    ensures
        r.0.deep_view() == split_state(lines.deep_view()).0,
        r.1.deep_view() == split_state(lines.deep_view()).1,
{
    let ghost dv = lines.deep_view();
    let mut fm: Vec<String> = Vec::new();
    let mut body: Vec<String> = Vec::new();
    let mut in_block = false;
    let n = lines.len();
    let mut i: usize = 0;
    proof {
        assert(dv.take(0) =~= Seq::<Seq<char>>::empty());
        assert(fm.deep_view() =~= split_state(dv.take(0)).0);
        assert(body.deep_view() =~= split_state(dv.take(0)).1);
    }
    while i < n
        invariant
            n == lines@.len(),
            dv == lines.deep_view(),
            i <= n,
            fm.deep_view() == split_state(dv.take(i as int)).0,
            body.deep_view() == split_state(dv.take(i as int)).1,
            in_block == split_state(dv.take(i as int)).2,
        decreases n - i,
    {
        proof {
            assert(dv.take(i + 1 as int).drop_last() =~= dv.take(i as int));
            assert(dv.take(i + 1 as int).last() == dv[i as int]);
            assert(dv[i as int] == lines@[i as int]@);
        }
        if line_is_delimiter(lines[i].as_str()) {
            in_block = !in_block;
        } else if in_block {
            let ghost before = fm.deep_view();
            fm.push(lines[i].clone());
            proof {
                assert(fm.deep_view() =~= before.push(lines@[i as int]@));
            }
        } else {
            let ghost before = body.deep_view();
            body.push(lines[i].clone());
            proof {
                assert(body.deep_view() =~= before.push(lines@[i as int]@));
            }
        }
        i = i + 1;
    }
    proof {
        assert(dv.take(n as int) =~= dv);
    }
    (fm, body)
}

/// The lines joined back into one text, one newline between neighbours.
pub open spec fn joined_lines(lines: Seq<Seq<char>>) -> Seq<char>
    decreases lines.len(),
{
    if lines.len() == 0 {
        Seq::empty()
    } else if lines.len() == 1 {
        lines.last()
    } else {
        joined_lines(lines.drop_last()) + seq!['\n'] + lines.last()
    }
}

/// Join lines with single newlines, as the blocks are handed to the
/// metadata parser and the renderer.
pub fn join_lines(lines: &Vec<String>) -> (r: String)
    ensures
        r@ == joined_lines(lines.deep_view()),
{
    let ghost dv = lines.deep_view();
    let mut r = String::new();
    let n = lines.len();
    let mut i: usize = 0;
    proof {
        assert(dv.take(0) =~= Seq::<Seq<char>>::empty());
        assert(r@ =~= joined_lines(dv.take(0)));
    }
    while i < n
        invariant
            n == lines@.len(),
            dv == lines.deep_view(),
            i <= n,
            r@ == joined_lines(dv.take(i as int)),
        decreases n - i,
    {
        proof {
            assert(dv.take(i + 1 as int).drop_last() =~= dv.take(i as int));
            assert(dv.take(i + 1 as int).last() == dv[i as int]);
            assert(dv[i as int] == lines@[i as int]@);
        }
        if i > 0 {
            r.append("\n");
            proof {
                reveal_strlit("\n");
                assert(("\n")@ =~= seq!['\n']);
            }
        }
        r.append(lines[i].as_str());
        i = i + 1;
    }
    proof {
        assert(dv.take(n as int) =~= dv);
    }
    r
}

} // verus!
