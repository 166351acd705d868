//! Counting the non-blank lines of a text: the content is split on
//! newline characters, and a line counts when some character of it is
//! not whitespace, which is exactly when its trimmed form is non-empty.

use vstd::prelude::*;
use vstd::string::StrSliceExecFns;

verus! {

/// Whether a character is whitespace, by the Unicode white-space list
/// that trimming removes.
pub open spec fn is_space(c: char) -> bool {
    let u = c as u32;
    (0x09 <= u && u <= 0x0D) || u == 0x20 || u == 0x85 || u == 0xA0 || u == 0x1680 || (0x2000 <= u
        && u <= 0x200A) || u == 0x2028 || u == 0x2029 || u == 0x202F || u == 0x205F || u == 0x3000
}

/// A line is blank when every character of it is whitespace; trimming
/// such a line leaves nothing.
pub open spec fn blank(line: Seq<char>) -> bool {
    forall|i: int| 0 <= i < line.len() ==> is_space(line[i])
}

/// The length of the first line: the index of the first newline, or the
/// whole length when there is none.
pub open spec fn first_line_len(s: Seq<char>) -> nat
    decreases s.len(),
{
    if s.len() == 0 {
        0
    } else if s[0] == '\n' {
        0
    } else {
        1 + first_line_len(s.drop_first())
    }
}

/// The first line is part of the text.
proof fn lemma_first_line_len_le(s: Seq<char>)
    ensures
        first_line_len(s) <= s.len(),
    decreases s.len(),
{
    if s.len() > 0 && s[0] != '\n' {
        lemma_first_line_len_le(s.drop_first());
    }
}

/// The number of non-blank lines: the first line counts when it is not
/// blank, and the text after its newline is counted in turn.
pub open spec fn loc_spec(s: Seq<char>) -> nat
    decreases s.len(),
    via loc_spec_decreases
{
    if s.len() == 0 {
        0
    } else {
        let l = first_line_len(s) as int;
        let next = if l + 1 <= s.len() {
            l + 1
        } else {
            s.len() as int
        };
        (if blank(s.take(l)) {
            0nat
        } else {
            1nat
        }) + loc_spec(s.skip(next))
    }
}

#[via_fn]
proof fn loc_spec_decreases(s: Seq<char>) {
    if s.len() > 0 {
        lemma_first_line_len_le(s);
    }
}

/// A scan that sees no newline before `k` and a newline (or the end) at
/// `k` has found the first line's length.
proof fn lemma_first_line_len_at(s: Seq<char>, k: int)
    requires
        0 <= k <= s.len(),
        forall|i: int| 0 <= i < k ==> s[i] != '\n',
        k < s.len() ==> s[k] == '\n',
    ensures
        first_line_len(s) == k,
    decreases k,
{
    if k == 0 {
    } else {
        assert(s[0] != '\n');
        let t = s.drop_first();
        assert(forall|i: int| 0 <= i < k - 1 ==> t[i] == s[i + 1] && t[i] != '\n');
        assert(k - 1 < t.len() ==> t[k - 1] == s[k]);
        lemma_first_line_len_at(t, k - 1);
    }
}

/// Whether a character is whitespace.
fn is_space_exec(c: char) -> (r: bool)
    ensures
        r == is_space(c),
{
    let u = c as u32;
    (0x09 <= u && u <= 0x0D) || u == 0x20 || u == 0x85 || u == 0xA0 || u == 0x1680 || (0x2000 <= u
        && u <= 0x200A) || u == 0x2028 || u == 0x2029 || u == 0x202F || u == 0x205F || u == 0x3000
}

/// Count the lines of `content` whose trimmed form is non-empty.
pub fn loc(content: &str) -> (r: usize)
    ensures
        r as nat == loc_spec(content@),
{
    let ghost s = content@;
    let len = content.unicode_len();
    let mut count: usize = 0;
    let mut pos: usize = 0;
    proof {
        assert(s.skip(0) =~= s);
    }
    while pos < len
        invariant
            pos <= len,
            len == s.len(),
            s == content@,
            count <= pos,
            loc_spec(s) == count + loc_spec(s.skip(pos as int)),
        decreases len - pos,
    {
        let ghost rest = s.skip(pos as int);
        let mut j: usize = pos;
        let mut nonblank = false;
        while j < len && content.get_char(j) != '\n'
            invariant
                pos <= j <= len,
                len == s.len(),
                s == content@,
                forall|i: int| pos <= i < j ==> s[i] != '\n',
                nonblank == !blank(s.subrange(pos as int, j as int)),
            decreases len - j,
        {
            let c = content.get_char(j);
            proof {
                assert(s.subrange(pos as int, j + 1) =~= s.subrange(pos as int, j as int).push(
                    s[j as int],
                ));
            }
            if !is_space_exec(c) {
                nonblank = true;
                proof {
                    assert(s.subrange(pos as int, j + 1)[j - pos] == s[j as int]);
                    assert(!blank(s.subrange(pos as int, j + 1)));
                }
            } else {
                proof {
                    if blank(s.subrange(pos as int, j as int)) {
                        assert forall|i: int| 0 <= i < j + 1 - pos implies #[trigger] is_space(
                            s.subrange(pos as int, j + 1)[i],
                        ) by {
                            if i < j - pos {
                                assert(s.subrange(pos as int, j + 1)[i] == s.subrange(
                                    pos as int,
                                    j as int,
                                )[i]);
                            } else {
                                assert(s.subrange(pos as int, j + 1)[i] == s[j as int]);
                            }
                        }
                    } else {
                        let w = choose|i: int|
                            0 <= i < j - pos && !is_space(s.subrange(pos as int, j as int)[i]);
                        assert(s.subrange(pos as int, j + 1)[w] == s.subrange(
                            pos as int,
                            j as int,
                        )[w]);
                        assert(!blank(s.subrange(pos as int, j + 1)));
                    }
                }
            }
            j = j + 1;
        }
        proof {
            let l = (j - pos) as int;
            assert(forall|i: int| 0 <= i < l ==> rest[i] == s[i + pos] && rest[i] != '\n');
            assert(l < rest.len() ==> rest[l] == s[j as int] && rest[l] == '\n');
            lemma_first_line_len_at(rest, l);
            assert(rest.take(l) =~= s.subrange(pos as int, j as int));
            if j < len {
                assert(rest.skip(l + 1) =~= s.skip(j + 1));
            } else {
                assert(l + 1 > rest.len());
                assert(rest.skip(rest.len() as int) =~= s.skip(len as int));
            }
        }
        if nonblank {
            count = count + 1;
            proof {
                assert(!blank(s.subrange(pos as int, j as int)));
                assert(j > pos);
            }
        }
        if j < len {
            pos = j + 1;
        } else {
            pos = j;
        }
    }
    proof {
        assert(s.skip(len as int) =~= Seq::<char>::empty());
    }
    count
}

} // verus!
