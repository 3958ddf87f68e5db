use vstd::prelude::*;

use crate::prepare_text::rows_view;

verus! {

/// The display width in terminal columns of one character, a control
/// character counting as zero.
pub uninterp spec fn char_display_width(c: char) -> nat;

/// Relies on unicode_width::UnicodeWidthChar::width: the column count
/// of one character, a function of the character alone; `None` for a
/// control character; its tables yield at most 3 columns.
#[verifier::external_body]
fn width_of_char(c: char) -> (r: Option<usize>)
    ensures
        match r {
            Some(w) => w as nat == char_display_width(c) && w <= 3,
            None => char_display_width(c) == 0,
        },
{
    unicode_width::UnicodeWidthChar::width(c)
}

/// The display width of one character in columns.
pub fn char_width(c: char) -> (r: usize)
    ensures
        r as nat == char_display_width(c),
        r <= 3,
{
    match width_of_char(c) {
        Some(w) => w,
        None => 0,
    }
}

/// The display width of a row: the sum of its characters' widths.
pub open spec fn str_width(s: Seq<char>) -> nat
    decreases s.len(),
{
    if s.len() == 0 {
        0
    } else {
        char_display_width(s[0]) + str_width(s.skip(1))
    }
}

/// What remains of a row after whole characters are skipped from the
/// left as long as they fit inside `budget` columns. A character that
/// straddles the budget's end — a double-width character across the
/// clipping boundary — is dropped entirely, never rendered in part.
pub open spec fn skip_cols(s: Seq<char>, budget: int) -> Seq<char>
    decreases s.len(),
{
    if s.len() == 0 {
        s
    } else if char_display_width(s[0]) <= budget {
        skip_cols(s.skip(1), budget - char_display_width(s[0]))
    } else if budget > 0 {
        s.skip(1)
    } else {
        s
    }
}

/// The longest prefix of a row whose display width fits in `maxw`
/// columns; a character is never split.
pub open spec fn take_cols(s: Seq<char>, maxw: int) -> Seq<char>
    decreases s.len(),
{
    if s.len() == 0 {
        s
    } else if maxw < char_display_width(s[0]) {
        Seq::<char>::empty()
    } else {
        seq![s[0]] + take_cols(s.skip(1), maxw - char_display_width(s[0]))
    }
}

/// What fits never exceeds the allowance.
pub proof fn lemma_take_cols_width(s: Seq<char>, maxw: int)
    requires
        maxw >= 0,
    ensures
        str_width(take_cols(s, maxw)) <= maxw,
    decreases s.len(),
{
    if s.len() == 0 {
    } else if maxw < char_display_width(s[0]) {
    } else {
        lemma_take_cols_width(s.skip(1), maxw - char_display_width(s[0]));
        let rest = take_cols(s.skip(1), maxw - char_display_width(s[0]));
        assert((seq![s[0]] + rest)[0] == s[0]);
        assert((seq![s[0]] + rest).skip(1) =~= rest);
        assert(str_width(seq![s[0]] + rest) == char_display_width(s[0]) + str_width(rest));
    }
}

/// Where, and with what text, one row is drawn inside a
/// `width x height` viewport: `None` when nothing is to be written.
///
/// A row is dropped whole when its line is outside the vertical
/// bounds; a negative `x` skips whole characters from the left; what
/// remains is cut to the columns left of the right edge.
pub open spec fn clip_row_spec(y: int, x: int, s: Seq<char>, width: int, height: int) -> Option<
    (int, Seq<char>),
> {
    if y < 0 || y >= height {
        None
    } else {
        let t1 = if x < 0 {
            skip_cols(s, -x)
        } else {
            s
        };
        let x1: int = if x < 0 {
            0
        } else {
            x
        };
        let maxw = width - x1;
        if maxw <= 0 {
            None
        } else {
            let t2 = take_cols(t1, maxw);
            if t2.len() == 0 {
                None
            } else {
                Some((x1, t2))
            }
        }
    }
}

/// Whatever the position — arbitrarily far off screen included — a
/// clipped row's display width never exceeds the columns available
/// right of `x`, and a line outside the vertical bounds is never
/// written at all.
pub proof fn lemma_clip_row_spec_bounds(y: int, x: int, s: Seq<char>, width: int, height: int)
    ensures
        match clip_row_spec(y, x, s, width, height) {
            Some(p) => str_width(p.1) <= width - (if x > 0 {
                x
            } else {
                0
            }),
            None => true,
        },
        y < 0 || y >= height ==> clip_row_spec(y, x, s, width, height) is None,
{
    if 0 <= y < height {
        let t1 = if x < 0 {
            skip_cols(s, -x)
        } else {
            s
        };
        let x1: int = if x < 0 {
            0
        } else {
            x
        };
        if width - x1 > 0 {
            lemma_take_cols_width(t1, width - x1);
        }
    }
}

/// Clip one row of text for drawing at signed position `(x, y)` in a
/// `width x height` viewport, honoring per-character display widths.
/// Returns the column to draw at and the clipped text, or `None` when
/// nothing is to be written. Never fails, whatever the position; the
/// clipped text never exceeds the columns available right of `x`.
pub fn clip_row(y: i64, x: i64, s: &str, width: u16, height: u16) -> (r: Option<(u16, String)>)
    ensures
        match r {
            Some(p) => {
                &&& clip_row_spec(y as int, x as int, s@, width as int, height as int) == Some(
                    (p.0 as int, p.1@),
                )
                &&& str_width(p.1@) <= width - (if x as int > 0 {
                    x as int
                } else {
                    0
                })
                &&& 0 <= y < height
                &&& p.0 < width
            },
            None => clip_row_spec(y as int, x as int, s@, width as int, height as int) is None,
        },
        y < 0 || y as int >= height as int ==> r is None,
{
    if y < 0 || y >= height as i64 {
        return None;
    }
    let n = s.unicode_len();
    let ghost t1 = if x < 0 {
        skip_cols(s@, -(x as int))
    } else {
        s@
    };
    let mut a: usize = 0;
    if x < 0 {
        let mut budget: i128 = -(x as i128);
        let mut stop = false;
        proof {
            assert(s@.skip(0) =~= s@);
        }
        while a < n && !stop
            invariant
                n == s@.len(),
                0 <= a <= n,
                0 <= budget,
                budget <= -(x as int),
                x < 0,
                t1 == skip_cols(s@, -(x as int)),
                !stop ==> t1 == skip_cols(s@.skip(a as int), budget as int),
                stop ==> t1 == s@.skip(a as int),
            decreases n - a, (if stop {
                0int
            } else {
                1int
            }),
        {
            let c = s.get_char(a);
            let w = char_width(c);
            if w as i128 <= budget {
                proof {
                    assert(s@.skip(a as int)[0] == c);
                    assert(s@.skip(a as int).skip(1) =~= s@.skip(a + 1));
                }
                budget = budget - w as i128;
                a += 1;
            } else if budget > 0 {
                // the character straddles the boundary: drop it whole
                proof {
                    assert(s@.skip(a as int)[0] == c);
                    assert(s@.skip(a as int).skip(1) =~= s@.skip(a + 1));
                    assert(skip_cols(s@.skip(a as int), budget as int) == s@.skip(a + 1));
                }
                a += 1;
                stop = true;
            } else {
                proof {
                    assert(s@.skip(a as int)[0] == c);
                    assert(skip_cols(s@.skip(a as int), budget as int) == s@.skip(a as int));
                }
                stop = true;
            }
        }
        proof {
            if !stop {
                assert(a == n);
                assert(s@.skip(n as int) =~= Seq::<char>::empty());
                assert(t1 == s@.skip(a as int));
            }
        }
    } else {
        proof {
            assert(s@.skip(0) =~= s@);
        }
    }
    let x0: i64 = if x > 0 {
        x
    } else {
        0
    };
    let maxw: i128 = width as i128 - x0 as i128;
    if maxw <= 0 {
        return None;
    }
    let x1: u16 = x0 as u16;
    let ghost m0 = maxw as int;
    let mut b: usize = a;
    let mut used: i128 = 0;
    let mut stop = false;
    proof {
        assert(s@.subrange(a as int, a as int) =~= Seq::<char>::empty());
        assert(s@.subrange(a as int, a as int) + take_cols(s@.skip(a as int), m0) =~= take_cols(
            s@.skip(a as int),
            m0,
        ));
        assert(t1 == s@.skip(a as int));
    }
    while b < n && !stop
        invariant
            n == s@.len(),
            0 <= a <= b <= n,
            0 <= used <= m0,
            0 < m0 <= 65535,
            m0 == maxw as int,
            t1 == s@.skip(a as int),
            !stop ==> take_cols(t1, m0) == s@.subrange(a as int, b as int) + take_cols(
                s@.skip(b as int),
                m0 - used,
            ),
            stop ==> take_cols(t1, m0) == s@.subrange(a as int, b as int),
        decreases n - b, (if stop {
            0int
        } else {
            1int
        }),
    {
        let c = s.get_char(b);
        let w = char_width(c);
        if used + w as i128 > maxw {
            proof {
                assert(s@.skip(b as int)[0] == c);
                assert(take_cols(s@.skip(b as int), m0 - used) =~= Seq::<char>::empty());
                assert(s@.subrange(a as int, b as int) + Seq::<char>::empty() =~= s@.subrange(
                    a as int,
                    b as int,
                ));
            }
            stop = true;
        } else {
            proof {
                assert(s@.skip(b as int)[0] == c);
                assert(s@.skip(b as int).skip(1) =~= s@.skip(b + 1));
                assert(take_cols(s@.skip(b as int), m0 - used) == seq![c] + take_cols(
                    s@.skip(b + 1),
                    m0 - used - char_display_width(c),
                ));
                assert(s@.subrange(a as int, b as int) + (seq![c] + take_cols(
                    s@.skip(b + 1),
                    m0 - used - char_display_width(c),
                )) =~= (s@.subrange(a as int, b as int) + seq![c]) + take_cols(
                    s@.skip(b + 1),
                    m0 - used - char_display_width(c),
                ));
                assert(s@.subrange(a as int, b as int) + seq![c] =~= s@.subrange(
                    a as int,
                    b + 1,
                ));
            }
            used = used + w as i128;
            b += 1;
        }
    }
    proof {
        if !stop {
            assert(b == n);
            assert(s@.skip(n as int) =~= Seq::<char>::empty());
            assert(s@.subrange(a as int, b as int) + Seq::<char>::empty() =~= s@.subrange(
                a as int,
                b as int,
            ));
        }
        assert(take_cols(t1, m0) == s@.subrange(a as int, b as int));
        lemma_take_cols_width(t1, m0);
    }
    if b == a {
        proof {
            assert(s@.subrange(a as int, b as int).len() == 0);
        }
        return None;
    }
    let clipped = s.substring_char(a, b);
    Some((x1, clipped.to_owned()))
}

/// The display width of a whole row, or `None` when the sum cannot be
/// represented in a machine word.
pub fn display_width(s: &str) -> (r: Option<usize>)
    ensures
        match r {
            Some(w) => w as nat == str_width(s@),
            None => str_width(s@) > usize::MAX,
        },
{
    let n = s.unicode_len();
    let mut acc: usize = 0;
    let mut i: usize = 0;
    proof {
        assert(s@.skip(0) =~= s@);
    }
    while i < n
        invariant
            n == s@.len(),
            0 <= i <= n,
            str_width(s@) == acc + str_width(s@.skip(i as int)),
        decreases n - i,
    {
        let c = s.get_char(i);
        let w = char_width(c);
        proof {
            assert(s@.skip(i as int)[0] == c);
            assert(s@.skip(i as int).skip(1) =~= s@.skip(i + 1));
        }
        if acc > usize::MAX - w {
            proof {
                assert(str_width(s@.skip(i as int)) >= char_display_width(c));
            }
            return None;
        }
        acc = acc + w;
        i += 1;
    }
    proof {
        assert(s@.skip(n as int) =~= Seq::<char>::empty());
    }
    Some(acc)
}

/// The largest display width over a set of rows.
pub open spec fn max_row_width_spec(rows: Seq<Seq<char>>) -> nat
    decreases rows.len(),
{
    if rows.len() == 0 {
        0
    } else {
        let m = max_row_width_spec(rows.drop_last());
        if str_width(rows.last()) > m {
            str_width(rows.last())
        } else {
            m
        }
    }
}

/// No row is wider than the widest.
pub proof fn lemma_max_row_width_ge(rows: Seq<Seq<char>>)
    ensures
        forall|k: int|
            0 <= k < rows.len() ==> str_width(#[trigger] rows[k]) <= max_row_width_spec(rows),
    decreases rows.len(),
{
    if rows.len() > 0 {
        lemma_max_row_width_ge(rows.drop_last());
        assert forall|k: int|
            0 <= k < rows.len() implies str_width(#[trigger] rows[k]) <= max_row_width_spec(
            rows,
        ) by {
            if k < rows.len() - 1 {
                assert(rows.drop_last()[k] == rows[k]);
            }
        }
    }
}

/// The display width of the widest row of a big text, or `None` when
/// some row's width cannot be represented in a machine word.
pub fn max_row_width(rows: &Vec<String>) -> (r: Option<usize>)
    ensures
        match r {
            Some(w) => w as nat == max_row_width_spec(rows_view(rows@)),
            None => max_row_width_spec(rows_view(rows@)) > usize::MAX,
        },
{
    let ghost rv = rows_view(rows@);
    let n = rows.len();
    let mut m: usize = 0;
    let mut k: usize = 0;
    proof {
        assert(rv.subrange(0, 0) =~= Seq::<Seq<char>>::empty());
    }
    while k < n
        invariant
            n == rows@.len() == rv.len(),
            rv == rows_view(rows@),
            0 <= k <= n,
            m as nat == max_row_width_spec(rv.subrange(0, k as int)),
        decreases n - k,
    {
        let wk = display_width(rows[k].as_str());
        proof {
            assert(rv[k as int] == rows@[k as int]@);
            assert(rv.subrange(0, k + 1).drop_last() =~= rv.subrange(0, k as int));
            assert(rv.subrange(0, k + 1).last() == rv[k as int]);
        }
        match wk {
            Some(w) => {
                if w > m {
                    m = w;
                }
            },
            None => {
                proof {
                    lemma_max_row_width_ge(rv);
                }
                return None;
            },
        }
        k += 1;
    }
    proof {
        assert(rv.subrange(0, n as int) =~= rv);
    }
    Some(m)
}

} // verus!
