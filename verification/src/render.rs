//! The printed form of a cube: its six faces unfolded into a cross.

use crate::color::Color;
use crate::cube::RubiksCube;
use vstd::prelude::*;
use vstd::string::*;

verus! {

/// One printed row: the letters of `count` facelets from `start` on, with
/// a space between neighbours and a line feed at the end.
pub open spec fn row_text(s: Seq<Color>, start: int, count: int) -> Seq<char> {
    Seq::new(
        (2 * count) as nat,
        |j: int|
            if j % 2 == 0 {
                s[start + j / 2].letter()
            } else if j == 2 * count - 1 {
                '\n'
            } else {
                ' '
            },
    )
}

/// The six spaces that stand before a row of the top or bottom face.
pub open spec fn indent() -> Seq<char> {
    Seq::new(6, |j: int| ' ')
}

/// The printed cube: three indented rows of the top face, three rows across
/// the four side faces, three indented rows of the bottom face.
pub open spec fn rendered(s: Seq<Color>) -> Seq<char> {
    indent() + row_text(s, 0, 3) + indent() + row_text(s, 3, 3) + indent() + row_text(s, 6, 3)
        + row_text(s, 9, 12) + row_text(s, 21, 12) + row_text(s, 33, 12) + indent() + row_text(
        s,
        45,
        3,
    ) + indent() + row_text(s, 48, 3) + indent() + row_text(s, 51, 3)
}

/// The letter of a colour, as text.
fn letter_of(color: Color) -> (text: &'static str)
    ensures
        text@ == seq![color.letter()],
{
    proof {
        reveal_strlit("W");
        reveal_strlit("Y");
        reveal_strlit("O");
        reveal_strlit("R");
        reveal_strlit("G");
        reveal_strlit("B");
    }
    let text = match color {
        Color::W => "W",
        Color::Y => "Y",
        Color::O => "O",
        Color::R => "R",
        Color::G => "G",
        Color::B => "B",
    };
    proof {
        assert(text@ =~= seq![color.letter()]);
    }
    text
}

impl RubiksCube {
    fn append_indent(out: &mut String)
        ensures
            final(out)@ == old(out)@ + indent(),
    {
        proof {
            reveal_strlit("      ");
            assert("      "@ =~= indent());
        }
        out.append("      ");
    }

    fn append_row(&self, out: &mut String, start: usize, count: usize)
        requires
            start + count <= 54,
            count >= 1,
        ensures
            final(out)@ == old(out)@ + row_text(self@, start as int, count as int),
    {
        let ghost row = row_text(self@, start as int, count as int);
        let mut k: usize = 0;
        proof {
            reveal_strlit(" ");
            reveal_strlit("\n");
            assert(" "@ =~= seq![' ']);
            assert("\n"@ =~= seq!['\n']);
            assert(out@ =~= old(out)@ + row.take(0));
        }
        while k < count
            invariant
                k <= count,
                start + count <= 54,
                row == row_text(self@, start as int, count as int),
                " "@ == seq![' '],
                "\n"@ == seq!['\n'],
                out@ == old(out)@ + row.take(2 * k),
            decreases count - k,
        {
            let ghost before = out@;
            out.append(letter_of(self.pieces[start + k]));
            if k + 1 < count {
                out.append(" ");
            } else {
                out.append("\n");
            }
            proof {
                let j = 2 * k as int;
                assert(j / 2 == k && j % 2 == 0);
                assert((j + 1) % 2 == 1);
                assert(row[j] == self@[start + k].letter());
                assert(row.take(j + 2) =~= row.take(j).push(row[j]).push(row[j + 1]));
                assert(out@ =~= old(out)@ + row.take(j + 2));
            }
            k += 1;
        }
        proof {
            assert(row.take(2 * k) =~= row);
        }
    }

    /// The cube as nine lines of text.
    pub fn to_string1(&self) -> (text: String)
        ensures
            text@ == rendered(self@),
    {
        let mut out = String::new();
        Self::append_indent(&mut out);
        self.append_row(&mut out, 0, 3);
        Self::append_indent(&mut out);
        self.append_row(&mut out, 3, 3);
        Self::append_indent(&mut out);
        self.append_row(&mut out, 6, 3);
        self.append_row(&mut out, 9, 12);
        self.append_row(&mut out, 21, 12);
        self.append_row(&mut out, 33, 12);
        Self::append_indent(&mut out);
        self.append_row(&mut out, 45, 3);
        Self::append_indent(&mut out);
        self.append_row(&mut out, 48, 3);
        Self::append_indent(&mut out);
        self.append_row(&mut out, 51, 3);
        proof {
            assert(out@ =~= rendered(self@));
        }
        out
    }
}

} // verus!
