use vstd::prelude::*;

verus! {

/// The rows of a sequence of strings, as sequences of characters.
pub open spec fn rows_view(v: Seq<String>) -> Seq<Seq<char>> {
    Seq::new(v.len(), |i: int| v[i]@)
}

/// Control characters (Unicode category `Cc`) may not key a glyph.
pub open spec fn is_control_char(c: char) -> bool {
    (c as u32) < 0x20 || ((c as u32) >= 0x7f && (c as u32) < 0xa0)
}

/// Some entry maps a control character.
pub open spec fn has_control_key(entries: Seq<(char, Vec<String>)>) -> bool {
    exists|i: int| 0 <= i < entries.len() && is_control_char(#[trigger] entries[i].0)
}

/// Two entries map the same character.
pub open spec fn has_duplicate_key(entries: Seq<(char, Vec<String>)>) -> bool {
    exists|i: int, j: int|
        0 <= i < j < entries.len() && #[trigger] entries[i].0 == #[trigger] entries[j].0
}

/// Some entry's glyph does not have exactly `h` rows.
pub open spec fn has_row_mismatch(entries: Seq<(char, Vec<String>)>, h: nat) -> bool {
    exists|i: int| 0 <= i < entries.len() && (#[trigger] entries[i]).1@.len() != h
}

/// Some entry maps the character `c`.
pub open spec fn has_key(entries: Seq<(char, Vec<String>)>, c: char) -> bool {
    exists|i: int| 0 <= i < entries.len() && #[trigger] entries[i].0 == c
}

/// Why a glyph table was rejected at construction.
#[derive(Debug, PartialEq, Eq, Structural)]
pub enum AlphabetError {
    /// A key is a control character.
    ControlCharKey,
    /// Two entries share a key.
    DuplicateKey,
    /// A glyph's row count differs from `letter_height`.
    RowCountMismatch,
    /// No glyph for the space character, which is the mandatory fallback.
    MissingSpaceGlyph,
}

/// A table of fixed-height ascii-art glyphs, keyed by character.
///
/// Well-formed tables (see [`Alphabet::wf`]) map no control character,
/// map each character at most once, give every glyph exactly
/// `letter_height` rows, and always contain a glyph for `' '`, which
/// doubles as the fallback for unmapped characters.
#[derive(Debug)]
pub struct Alphabet {
    /// The glyphs, one entry per mapped character.
    pub letters: Vec<(char, Vec<String>)>,
    /// Rows per glyph.
    pub letter_height: usize,
    /// Blank rows inserted between logical text lines.
    pub line_spacing: usize,
}

impl Alphabet {
    /// The invariant every constructed table satisfies.
    pub open spec fn wf(self) -> bool {
        &&& !has_control_key(self.letters@)
        &&& !has_duplicate_key(self.letters@)
        &&& !has_row_mismatch(self.letters@, self.letter_height as nat)
        &&& self.spec_has(' ')
    }

    /// Whether the table maps `c`.
    pub open spec fn spec_has(self, c: char) -> bool {
        has_key(self.letters@, c)
    }

    /// The index of the entry for `c`.
    pub open spec fn spec_index_of(self, c: char) -> int {
        choose|i: int| 0 <= i < self.letters@.len() && #[trigger] self.letters@[i].0 == c
    }

    /// The rows of the glyph stored at entry `i`.
    pub open spec fn glyph_rows_at(self, i: int) -> Seq<Seq<char>> {
        rows_view(self.letters@[i].1@)
    }

    /// The rows of the glyph used for `c`: the mapped glyph, or the
    /// space glyph when `c` is unmapped.
    pub open spec fn spec_get(self, c: char) -> Seq<Seq<char>> {
        if self.spec_has(c) {
            self.glyph_rows_at(self.spec_index_of(c))
        } else {
            self.glyph_rows_at(self.spec_index_of(' '))
        }
    }

    /// Every glyph a well-formed table hands out has exactly
    /// `letter_height` rows, whatever character is asked for.
    pub proof fn lemma_glyph_height(self, c: char)
        requires
            self.wf(),
        ensures
            self.spec_get(c).len() == self.letter_height,
    {
        if self.spec_has(c) {
            let i = self.spec_index_of(c);
            assert(0 <= i < self.letters@.len() && self.letters@[i].0 == c);
        } else {
            let i = self.spec_index_of(' ');
            assert(0 <= i < self.letters@.len() && self.letters@[i].0 == ' ');
        }
    }

    /// Linear scan for the entry keyed by `c`.
    fn find_index(&self, c: char) -> (r: Option<usize>)
        ensures
            match r {
                Some(i) => 0 <= i < self.letters@.len() && self.letters@[i as int].0 == c,
                None => !self.spec_has(c),
            },
    {
        let n = self.letters.len();
        let mut i: usize = 0;
        while i < n
            invariant
                n == self.letters@.len(),
                0 <= i <= n,
                forall|j: int| 0 <= j < i ==> #[trigger] self.letters@[j].0 != c,
            decreases n - i,
        {
            if self.letters[i].0 == c {
                return Some(i);
            }
            i += 1;
        }
        None
    }

    /// Look a character up; an unmapped character falls back to the
    /// space glyph, which well-formedness guarantees to exist.
    pub fn get(&self, c: char) -> (glyph: &Vec<String>)
        requires
            self.wf(),
        ensures
            rows_view(glyph@) == self.spec_get(c),
            glyph@.len() == self.letter_height,
    {
        proof {
            self.lemma_glyph_height(c);
        }
        match self.find_index(c) {
            Some(i) => {
                proof {
                    let k = self.spec_index_of(c);
                    assert(0 <= k < self.letters@.len() && self.letters@[k].0 == c);
                    if k != i {
                        assert(self.letters@[k].0 == self.letters@[i as int].0);
                        assert(has_duplicate_key(self.letters@));
                    }
                }
                &self.letters[i].1
            },
            None => {
                match self.find_index(' ') {
                    Some(i) => {
                        proof {
                            let k = self.spec_index_of(' ');
                            assert(0 <= k < self.letters@.len() && self.letters@[k].0 == ' ');
                            if k != i {
                                assert(self.letters@[k].0 == self.letters@[i as int].0);
                                assert(has_duplicate_key(self.letters@));
                            }
                        }
                        &self.letters[i].1
                    },
                    None => vstd::pervasive::unreached(),
                }
            },
        }
    }

    /// Build a table, validating what well-formedness demands: no
    /// control-character key, no duplicate key, every glyph exactly
    /// `letter_height` rows, and a glyph for the space character.
    pub fn new(letter_height: usize, line_spacing: usize, letters: Vec<(char, Vec<String>)>) -> (r:
        Result<Alphabet, AlphabetError>)
        ensures
            match r {
                Ok(a) => {
                    &&& a.letters@ == letters@
                    &&& a.letter_height == letter_height
                    &&& a.line_spacing == line_spacing
                    &&& a.wf()
                },
                Err(e) => match e {
                    AlphabetError::ControlCharKey => has_control_key(letters@),
                    AlphabetError::DuplicateKey => !has_control_key(letters@)
                        && has_duplicate_key(letters@),
                    AlphabetError::RowCountMismatch => !has_control_key(letters@)
                        && !has_duplicate_key(letters@) && has_row_mismatch(
                        letters@,
                        letter_height as nat,
                    ),
                    AlphabetError::MissingSpaceGlyph => !has_control_key(letters@)
                        && !has_duplicate_key(letters@) && !has_row_mismatch(
                        letters@,
                        letter_height as nat,
                    ) && !has_key(letters@, ' '),
                },
            },
    {
        let n = letters.len();
        let mut i: usize = 0;
        while i < n
            invariant
                n == letters@.len(),
                0 <= i <= n,
                forall|j: int| 0 <= j < i ==> !is_control_char(#[trigger] letters@[j].0),
            decreases n - i,
        {
            let c = letters[i].0;
            let code = c as u32;
            if code < 0x20 || (0x7f <= code && code < 0xa0) {
                return Err(AlphabetError::ControlCharKey);
            }
            i += 1;
        }
        let mut i: usize = 0;
        while i < n
            invariant
                n == letters@.len(),
                0 <= i <= n,
                !has_control_key(letters@),
                forall|p: int, q: int|
                    0 <= p < q < i ==> #[trigger] letters@[p].0 != #[trigger] letters@[q].0,
            decreases n - i,
        {
            let mut j: usize = 0;
            while j < i
                invariant
                    n == letters@.len(),
                    0 <= j <= i < n,
                    !has_control_key(letters@),
                    forall|q: int| 0 <= q < j ==> #[trigger] letters@[q].0 != letters@[i as int].0,
                decreases i - j,
            {
                if letters[j].0 == letters[i].0 {
                    proof {
                        let jj = j as int;
                        let ii = i as int;
                        assert(0 <= jj < ii < letters@.len() && letters@[jj].0 == letters@[ii].0);
                    }
                    return Err(AlphabetError::DuplicateKey);
                }
                j += 1;
            }
            i += 1;
        }
        let mut i: usize = 0;
        while i < n
            invariant
                n == letters@.len(),
                0 <= i <= n,
                !has_control_key(letters@),
                !has_duplicate_key(letters@),
                forall|j: int|
                    0 <= j < i ==> (#[trigger] letters@[j]).1@.len() == letter_height as nat,
            decreases n - i,
        {
            if letters[i].1.len() != letter_height {
                proof {
                    assert((letters@[i as int]).1@.len() != letter_height as nat);
                }
                return Err(AlphabetError::RowCountMismatch);
            }
            i += 1;
        }
        let mut has_space = false;
        let mut i: usize = 0;
        while i < n
            invariant
                n == letters@.len(),
                0 <= i <= n,
                has_space == exists|j: int|
                    0 <= j < i && #[trigger] letters@[j].0 == ' ',
            decreases n - i,
        {
            if letters[i].0 == ' ' {
                has_space = true;
            }
            i += 1;
        }
        if !has_space {
            return Err(AlphabetError::MissingSpaceGlyph);
        }
        Ok(Alphabet { letters, letter_height, line_spacing })
    }
}

/// The glyph segments of `s`: how the renderer walks the text, one
/// segment per `'\n'`-separated stretch. Every text has at least one
/// segment, and a trailing `'\n'` opens a final empty one (which the
/// renderer turns into a trailing blank block).
pub open spec fn split_lines(s: Seq<char>) -> Seq<Seq<char>>
    decreases s.len(),
{
    if s.len() == 0 {
        seq![Seq::<char>::empty()]
    } else if s[0] == '\n' {
        seq![Seq::<char>::empty()] + split_lines(s.skip(1))
    } else {
        let rest = split_lines(s.skip(1));
        seq![seq![s[0]] + rest[0]] + rest.skip(1)
    }
}

/// A line with one trailing carriage return removed: the tail of a
/// `"\r\n"` line break.
pub open spec fn strip_cr(l: Seq<char>) -> Seq<char> {
    if l.len() > 0 && l[l.len() - 1] == '\r' {
        l.drop_last()
    } else {
        l
    }
}

/// The index of the first `'\n'` in `s`, or `s.len()` when there is
/// none.
pub open spec fn first_nl(s: Seq<char>) -> nat
    decreases s.len(),
{
    if s.len() == 0 {
        0
    } else if s[0] == '\n' {
        0
    } else {
        1 + first_nl(s.skip(1))
    }
}

/// The lines of `s` as `str::lines` reads them: split at `'\n'`, a
/// `"\r\n"` counting as one break, and a final trailing break opening
/// no extra empty line. The empty text has no lines.
pub open spec fn lines_of(s: Seq<char>) -> Seq<Seq<char>>
    decreases s.len(),
{
    if s.len() == 0 {
        Seq::<Seq<char>>::empty()
    } else {
        let j = first_nl(s);
        if j >= s.len() {
            seq![s]
        } else {
            seq![strip_cr(s.subrange(0, j as int))] + lines_of(
                s.subrange(j as int + 1, s.len() as int),
            )
        }
    }
}

/// The lines joined back with `'\n'`.
pub open spec fn join_lines(ls: Seq<Seq<char>>) -> Seq<char>
    decreases ls.len(),
{
    if ls.len() == 0 {
        Seq::<char>::empty()
    } else if ls.len() == 1 {
        ls[0]
    } else {
        ls[0] + seq!['\n'] + join_lines(ls.skip(1))
    }
}

/// The length of the longest line.
pub open spec fn max_line_len(ls: Seq<Seq<char>>) -> nat
    decreases ls.len(),
{
    if ls.len() == 0 {
        0
    } else {
        let m = max_line_len(ls.drop_last());
        if ls.last().len() > m {
            ls.last().len()
        } else {
            m
        }
    }
}

/// `n` spaces.
pub open spec fn spaces(n: nat) -> Seq<char> {
    Seq::new(n, |i: int| ' ')
}

/// One line padded with spaces to width `m`, the extra space going to
/// the right when the padding is odd.
pub open spec fn center_line(line: Seq<char>, m: nat) -> Seq<char> {
    let pad = if m >= line.len() {
        (m - line.len()) as nat
    } else {
        0
    };
    spaces(pad / 2) + line + spaces((pad - pad / 2) as nat)
}

/// The whole centering step: every line padded to the length of the
/// longest one, the block joined back with `'\n'`.
pub open spec fn center_text_spec(s: Seq<char>) -> Seq<char> {
    let ls = lines_of(s);
    join_lines(ls.map_values(|l: Seq<char>| center_line(l, max_line_len(lines_of(s)))))
}

pub proof fn lemma_split_lines_nonempty(s: Seq<char>)
    ensures
        split_lines(s).len() >= 1,
    decreases s.len(),
{
    if s.len() == 0 {
    } else {
        lemma_split_lines_nonempty(s.skip(1));
    }
}

/// A text without `'\n'` is a single line.
pub proof fn lemma_split_lines_no_newline(s: Seq<char>)
    requires
        forall|i: int| 0 <= i < s.len() ==> s[i] != '\n',
    ensures
        split_lines(s) == seq![s],
    decreases s.len(),
{
    if s.len() == 0 {
        assert(s =~= Seq::<char>::empty());
    } else {
        assert(s[0] != '\n');
        assert(forall|i: int| 0 <= i < s.skip(1).len() ==> #[trigger] s.skip(1)[i] != '\n');
        lemma_split_lines_no_newline(s.skip(1));
        let rest = split_lines(s.skip(1));
        assert(rest == seq![s.skip(1)]);
        assert(seq![s[0]] + s.skip(1) =~= s);
        assert(rest.skip(1) =~= Seq::<Seq<char>>::empty());
        assert(split_lines(s) =~= seq![s]);
    }
}

/// Splitting decomposes at the first `'\n'`.
pub proof fn lemma_split_lines_at_newline(s: Seq<char>, j: int)
    requires
        0 <= j < s.len(),
        s[j] == '\n',
        forall|i: int| 0 <= i < j ==> s[i] != '\n',
    ensures
        split_lines(s) == seq![s.subrange(0, j)] + split_lines(s.subrange(j + 1, s.len() as int)),
    decreases j,
{
    if j == 0 {
        assert(s.subrange(0, 0) =~= Seq::<char>::empty());
        assert(s.skip(1) =~= s.subrange(1, s.len() as int));
    } else {
        assert(s[0] != '\n');
        let t = s.skip(1);
        assert(t[j - 1] == '\n');
        assert(forall|i: int| 0 <= i < j - 1 ==> #[trigger] t[i] != '\n');
        lemma_split_lines_at_newline(t, j - 1);
        let rest = split_lines(t);
        assert(rest == seq![t.subrange(0, j - 1)] + split_lines(
            t.subrange(j, t.len() as int),
        ));
        assert(rest[0] == t.subrange(0, j - 1));
        assert(seq![s[0]] + t.subrange(0, j - 1) =~= s.subrange(0, j));
        assert(t.subrange(j, t.len() as int) =~= s.subrange(j + 1, s.len() as int));
        assert(rest.skip(1) =~= split_lines(s.subrange(j + 1, s.len() as int)));
        assert(split_lines(s) =~= seq![s.subrange(0, j)] + split_lines(
            s.subrange(j + 1, s.len() as int),
        ));
    }
}

/// Where the first `'\n'` stands: nowhere earlier, and at a `'\n'`
/// unless there is none.
pub proof fn lemma_first_nl(s: Seq<char>)
    ensures
        first_nl(s) <= s.len(),
        first_nl(s) < s.len() ==> s[first_nl(s) as int] == '\n',
        forall|i: int| 0 <= i < first_nl(s) ==> s[i] != '\n',
    decreases s.len(),
{
    if s.len() == 0 {
    } else if s[0] == '\n' {
    } else {
        lemma_first_nl(s.skip(1));
        assert forall|i: int| 0 <= i < first_nl(s) implies s[i] != '\n' by {
            if i > 0 {
                assert(s.skip(1)[i - 1] == s[i]);
            }
        }
        if first_nl(s) < s.len() {
            assert(s.skip(1)[first_nl(s.skip(1)) as int] == s[first_nl(s) as int]);
        }
    }
}

/// A nonempty text without `'\n'` is a single line.
pub proof fn lemma_lines_of_no_newline(s: Seq<char>)
    requires
        s.len() > 0,
        forall|i: int| 0 <= i < s.len() ==> s[i] != '\n',
    ensures
        lines_of(s) == seq![s],
{
    lemma_first_nl(s);
    if first_nl(s) < s.len() {
        assert(s[first_nl(s) as int] == '\n');
    }
}

/// The line reading decomposes at the first `'\n'`, the piece before
/// it losing a trailing `'\r'`.
pub proof fn lemma_lines_of_at_newline(s: Seq<char>, j: int)
    requires
        0 <= j < s.len(),
        s[j] == '\n',
        forall|i: int| 0 <= i < j ==> s[i] != '\n',
    ensures
        lines_of(s) == seq![strip_cr(s.subrange(0, j))] + lines_of(
            s.subrange(j + 1, s.len() as int),
        ),
{
    lemma_first_nl(s);
    let f = first_nl(s) as int;
    if f < j {
        assert(s[f] == '\n');
    }
    if f > j {
        assert(s[j] != '\n');
    }
    assert(f == j);
}

/// No line that the reading produces contains `'\n'`.
pub proof fn lemma_lines_of_no_nl_in_lines(s: Seq<char>)
    ensures
        forall|k: int, i: int|
            0 <= k < lines_of(s).len() && 0 <= i < lines_of(s)[k].len()
                ==> #[trigger] lines_of(s)[k][i] != '\n',
    decreases s.len(),
{
    if s.len() == 0 {
    } else {
        lemma_first_nl(s);
        let j = first_nl(s) as int;
        if j >= s.len() {
            assert(lines_of(s) == seq![s]);
            assert forall|k: int, i: int|
                0 <= k < lines_of(s).len() && 0 <= i < lines_of(s)[k].len() implies #[trigger] lines_of(
                s,
            )[k][i] != '\n' by {
                assert(lines_of(s)[k] == s);
            }
        } else {
            let rest = s.subrange(j + 1, s.len() as int);
            lemma_lines_of_no_nl_in_lines(rest);
            let p = s.subrange(0, j);
            assert forall|k: int, i: int|
                0 <= k < lines_of(s).len() && 0 <= i < lines_of(s)[k].len() implies #[trigger] lines_of(
                s,
            )[k][i] != '\n' by {
                if k == 0 {
                    assert(lines_of(s)[0] == strip_cr(p));
                    assert(strip_cr(p)[i] == p[i]);
                    assert(p[i] == s[i]);
                } else {
                    assert(lines_of(s)[k] == lines_of(rest)[k - 1]);
                }
            }
        }
    }
}

/// No line is longer than the longest.
pub proof fn lemma_max_line_len_ge(ls: Seq<Seq<char>>)
    ensures
        forall|k: int| 0 <= k < ls.len() ==> (#[trigger] ls[k]).len() <= max_line_len(ls),
    decreases ls.len(),
{
    if ls.len() > 0 {
        lemma_max_line_len_ge(ls.drop_last());
        assert forall|k: int| 0 <= k < ls.len() implies (#[trigger] ls[k]).len() <= max_line_len(
            ls,
        ) by {
            if k < ls.len() - 1 {
                assert(ls.drop_last()[k] == ls[k]);
            }
        }
    }
}

/// When every line has length `m`, the longest has length `m`.
pub proof fn lemma_max_line_len_all_equal(ls: Seq<Seq<char>>, m: nat)
    requires
        ls.len() >= 1,
        forall|k: int| 0 <= k < ls.len() ==> (#[trigger] ls[k]).len() == m,
    ensures
        max_line_len(ls) == m,
    decreases ls.len(),
{
    assert(ls.last() == ls[ls.len() - 1]);
    assert(ls.last().len() == m);
    if ls.len() == 1 {
        assert(ls.drop_last() =~= Seq::<Seq<char>>::empty());
        assert(max_line_len(ls.drop_last()) == 0);
    } else {
        assert(forall|k: int|
            0 <= k < ls.drop_last().len() ==> (#[trigger] ls.drop_last()[k]).len() == m);
        lemma_max_line_len_all_equal(ls.drop_last(), m);
    }
}

/// Joining then reading back restores the lines, provided none
/// contains `'\n'`, no line but the last ends in `'\r'` (a second
/// reading would fold it into the break), and the last line is not
/// empty (a trailing break opens no line).
pub proof fn lemma_lines_of_join(xs: Seq<Seq<char>>)
    requires
        xs.len() >= 1,
        xs.last().len() > 0,
        forall|k: int, i: int|
            0 <= k < xs.len() && 0 <= i < xs[k].len() ==> #[trigger] xs[k][i] != '\n',
        forall|k: int|
            0 <= k < xs.len() - 1 ==> ((#[trigger] xs[k]).len() > 0 ==> xs[k][xs[k].len() - 1]
                != '\r'),
    ensures
        lines_of(join_lines(xs)) == xs,
    decreases xs.len(),
{
    if xs.len() == 1 {
        assert(join_lines(xs) == xs[0]);
        assert(xs.last() == xs[0]);
        assert(forall|i: int| 0 <= i < xs[0].len() ==> #[trigger] xs[0][i] != '\n');
        lemma_lines_of_no_newline(xs[0]);
        assert(seq![xs[0]] =~= xs);
    } else {
        let t = join_lines(xs);
        let j = xs[0].len() as int;
        assert(t == xs[0] + seq!['\n'] + join_lines(xs.skip(1)));
        assert(t.len() == j + 1 + join_lines(xs.skip(1)).len());
        assert(t[j] == '\n');
        assert(forall|i: int| 0 <= i < j ==> #[trigger] t[i] == xs[0][i]);
        lemma_lines_of_at_newline(t, j);
        assert(t.subrange(0, j) =~= xs[0]);
        assert(strip_cr(xs[0]) == xs[0]);
        assert(t.subrange(j + 1, t.len() as int) =~= join_lines(xs.skip(1)));
        assert(xs.skip(1).last() == xs.last());
        assert(forall|k: int, i: int|
            0 <= k < xs.skip(1).len() && 0 <= i < xs.skip(1)[k].len()
                ==> #[trigger] xs.skip(1)[k][i] != '\n') by {
            assert(forall|k: int|
                0 <= k < xs.skip(1).len() ==> #[trigger] xs.skip(1)[k] == xs[k + 1]);
        }
        assert(forall|k: int|
            0 <= k < xs.skip(1).len() - 1 ==> ((#[trigger] xs.skip(1)[k]).len() > 0 ==> xs.skip(
                1,
            )[k][xs.skip(1)[k].len() - 1] != '\r')) by {
            assert(forall|k: int|
                0 <= k < xs.skip(1).len() ==> #[trigger] xs.skip(1)[k] == xs[k + 1]);
        }
        lemma_lines_of_join(xs.skip(1));
        assert(lines_of(t) == seq![xs[0]] + xs.skip(1));
        assert(seq![xs[0]] + xs.skip(1) =~= xs);
    }
}

/// The texts on which a second centering pass reads back exactly the
/// lines the first one wrote: the block is not two or more entirely
/// blank lines (the join's trailing break would then open no line),
/// and no longest line but the last ends in a bare `'\r'` (unpadded,
/// it would fold into the following break).
pub open spec fn center_idempotent_domain(s: Seq<char>) -> bool {
    let ls = lines_of(s);
    let m = max_line_len(ls);
    &&& !(m == 0 && ls.len() >= 2)
    &&& forall|k: int|
        0 <= k < ls.len() - 1 ==> !((#[trigger] ls[k]).len() == m && m > 0 && ls[k][m - 1]
            == '\r')
}

/// Centering is idempotent: centering an already-centered block
/// returns it unchanged.
pub proof fn lemma_center_text_idempotent(s: Seq<char>)
    requires
        center_idempotent_domain(s),
    ensures
        center_text_spec(center_text_spec(s)) == center_text_spec(s),
{
    let ls = lines_of(s);
    let m = max_line_len(ls);
    let cls = ls.map_values(|l: Seq<char>| center_line(l, max_line_len(lines_of(s))));
    let c = center_text_spec(s);
    assert(c == join_lines(cls));
    assert(cls.len() == ls.len());
    lemma_max_line_len_ge(ls);
    lemma_lines_of_no_nl_in_lines(s);
    if ls.len() == 0 || m == 0 {
        // The block centers to the empty text, whose centering is
        // itself empty.
        if ls.len() > 0 {
            assert(ls.len() == 1);
            assert(ls[0].len() <= m);
            assert(cls[0] == center_line(ls[0], m));
            assert(cls[0] =~= Seq::<char>::empty());
            assert(c == cls[0]);
        }
        assert(c =~= Seq::<char>::empty());
        assert(lines_of(c).len() == 0);
        let cls2 = lines_of(c).map_values(
            |l: Seq<char>| center_line(l, max_line_len(lines_of(c))),
        );
        assert(cls2.len() == 0);
        assert(center_text_spec(c) == join_lines(cls2));
        assert(center_text_spec(c) =~= c);
    } else {
        assert forall|k: int| 0 <= k < cls.len() implies (#[trigger] cls[k]).len() == m by {
            assert(cls[k] == center_line(ls[k], m));
            assert(ls[k].len() <= m);
        }
        assert forall|k: int, i: int|
            0 <= k < cls.len() && 0 <= i < cls[k].len() implies #[trigger] cls[k][i] != '\n' by {
            assert(cls[k] == center_line(ls[k], m));
            let pad = (m - ls[k].len()) as nat;
            let left = pad / 2;
            if i < left {
                assert(cls[k][i] == ' ');
            } else if i < left + ls[k].len() {
                assert(cls[k][i] == ls[k][i - left]);
            } else {
                assert(cls[k][i] == ' ');
            }
        }
        assert(cls.last() == cls[cls.len() - 1]);
        assert(cls.last().len() == m);
        assert forall|k: int|
            0 <= k < cls.len() - 1 implies ((#[trigger] cls[k]).len() > 0 ==> cls[k][cls[k].len()
            - 1] != '\r') by {
            assert(cls[k] == center_line(ls[k], m));
            let pad = (m - ls[k].len()) as nat;
            let left = pad / 2;
            let right = (pad - left) as nat;
            if right > 0 {
                assert(cls[k][m - 1] == ' ');
            } else {
                assert(pad == 0);
                assert(ls[k].len() == m);
                assert(cls[k][m - 1] == ls[k][m - 1]);
            }
        }
        lemma_lines_of_join(cls);
        assert(lines_of(c) == cls);
        lemma_max_line_len_all_equal(cls, m);
        let m2 = max_line_len(lines_of(c));
        assert(m2 == m);
        let cls2 = lines_of(c).map_values(
            |l: Seq<char>| center_line(l, max_line_len(lines_of(c))),
        );
        assert forall|k: int| 0 <= k < cls2.len() implies #[trigger] cls2[k] == cls[k] by {
            assert(cls2[k] == center_line(cls[k], m2));
            assert(cls[k].len() == m);
            assert(spaces(0) =~= Seq::<char>::empty());
            assert(center_line(cls[k], m2) =~= cls[k]);
        }
        assert(cls2 =~= cls);
        assert(center_text_spec(c) == join_lines(cls2));
    }
}

/// The lines that a sequence of `(start, end)` character bounds cuts
/// out of `s`.
pub open spec fn bounds_lines(s: Seq<char>, bs: Seq<(usize, usize)>) -> Seq<Seq<char>> {
    Seq::new(bs.len(), |k: int| s.subrange(bs[k].0 as int, bs[k].1 as int))
}

/// The `(start, end)` character bounds of the glyph segments of `s`,
/// as the renderer walks them.
fn segment_bounds(s: &str) -> (r: Vec<(usize, usize)>)
    ensures
        r@.len() == split_lines(s@).len(),
        forall|k: int|
            0 <= k < r@.len() ==> (#[trigger] r@[k]).0 <= r@[k].1 <= s@.len() && split_lines(s@)[k]
                == s@.subrange(r@[k].0 as int, r@[k].1 as int),
{
    let n = s.unicode_len();
    let mut bounds: Vec<(usize, usize)> = Vec::new();
    proof {
        assert(bounds_lines(s@, bounds@) =~= Seq::<Seq<char>>::empty());
        assert(s@.subrange(0, n as int) =~= s@);
        assert(bounds_lines(s@, bounds@) + split_lines(s@.subrange(0, n as int)) =~= split_lines(
            s@,
        ));
    }
    let mut start: usize = 0;
    let mut i: usize = 0;
    while i < n
        invariant
            n == s@.len(),
            0 <= start <= i <= n,
            forall|t: int| start <= t < i ==> s@[t] != '\n',
            forall|k: int| 0 <= k < bounds@.len() ==> (#[trigger] bounds@[k]).0 <= bounds@[k].1 <= n,
            split_lines(s@) == bounds_lines(s@, bounds@) + split_lines(
                s@.subrange(start as int, n as int),
            ),
        decreases n - i,
    {
        let c = s.get_char(i);
        if c == '\n' {
            proof {
                let suf = s@.subrange(start as int, n as int);
                let j = i - start;
                assert(suf[j] == s@[i as int]);
                assert(forall|t: int| 0 <= t < j ==> #[trigger] suf[t] == s@[t + start]);
                lemma_split_lines_at_newline(suf, j);
                assert(suf.subrange(0, j) =~= s@.subrange(start as int, i as int));
                assert(suf.subrange(j + 1, suf.len() as int) =~= s@.subrange(
                    i + 1,
                    n as int,
                ));
                assert(bounds_lines(s@, bounds@.push((start, i))) =~= bounds_lines(s@, bounds@)
                    + seq![s@.subrange(start as int, i as int)]);
                assert(bounds_lines(s@, bounds@) + (seq![s@.subrange(start as int, i as int)]
                    + split_lines(s@.subrange(i + 1, n as int))) =~= (bounds_lines(s@, bounds@)
                    + seq![s@.subrange(start as int, i as int)]) + split_lines(
                    s@.subrange(i + 1, n as int),
                ));
            }
            bounds.push((start, i));
            start = i + 1;
        }
        i += 1;
    }
    proof {
        let suf = s@.subrange(start as int, n as int);
        assert(forall|t: int| 0 <= t < suf.len() ==> #[trigger] suf[t] == s@[t + start]);
        lemma_split_lines_no_newline(suf);
        assert(bounds_lines(s@, bounds@.push((start, n))) =~= bounds_lines(s@, bounds@) + seq![
            s@.subrange(start as int, n as int),
        ]);
    }
    bounds.push((start, n));
    proof {
        assert(split_lines(s@) =~= bounds_lines(s@, bounds@));
        assert(forall|k: int|
            0 <= k < bounds@.len() ==> split_lines(s@)[k] == #[trigger] bounds_lines(
                s@,
                bounds@,
            )[k]);
    }
    bounds
}

/// The `(start, end)` character bounds of the lines of `s`, read as
/// `str::lines` reads them: the end of a line stops short of the
/// `'\r'` of a `"\r\n"` break, and a final trailing break opens no
/// extra line.
fn text_line_bounds(s: &str) -> (r: Vec<(usize, usize)>)
    ensures
        r@.len() == lines_of(s@).len(),
        forall|k: int|
            0 <= k < r@.len() ==> (#[trigger] r@[k]).0 <= r@[k].1 <= s@.len() && lines_of(s@)[k]
                == s@.subrange(r@[k].0 as int, r@[k].1 as int),
{
    let n = s.unicode_len();
    let mut bounds: Vec<(usize, usize)> = Vec::new();
    proof {
        assert(bounds_lines(s@, bounds@) =~= Seq::<Seq<char>>::empty());
        assert(s@.subrange(0, n as int) =~= s@);
        assert(bounds_lines(s@, bounds@) + lines_of(s@.subrange(0, n as int)) =~= lines_of(s@));
    }
    let mut start: usize = 0;
    let mut i: usize = 0;
    while i < n
        invariant
            n == s@.len(),
            0 <= start <= i <= n,
            forall|t: int| start <= t < i ==> s@[t] != '\n',
            forall|k: int| 0 <= k < bounds@.len() ==> (#[trigger] bounds@[k]).0 <= bounds@[k].1 <= n,
            lines_of(s@) == bounds_lines(s@, bounds@) + lines_of(
                s@.subrange(start as int, n as int),
            ),
        decreases n - i,
    {
        let c = s.get_char(i);
        if c == '\n' {
            let end = if i > start && s.get_char(i - 1) == '\r' {
                i - 1
            } else {
                i
            };
            proof {
                let suf = s@.subrange(start as int, n as int);
                let j = i - start;
                assert(suf[j] == s@[i as int]);
                assert(forall|t: int| 0 <= t < j ==> #[trigger] suf[t] == s@[t + start]);
                lemma_lines_of_at_newline(suf, j);
                let p = s@.subrange(start as int, i as int);
                assert(suf.subrange(0, j) =~= p);
                if i > start && s@[i - 1] == '\r' {
                    assert(p.len() > 0);
                    assert(p[p.len() - 1] == s@[i - 1]);
                    assert(p.drop_last() =~= s@.subrange(start as int, end as int));
                    assert(strip_cr(p) == s@.subrange(start as int, end as int));
                } else {
                    if i > start {
                        assert(p[p.len() - 1] == s@[i - 1]);
                    }
                    assert(strip_cr(p) == p);
                    assert(p =~= s@.subrange(start as int, end as int));
                }
                assert(suf.subrange(j + 1, suf.len() as int) =~= s@.subrange(
                    i + 1,
                    n as int,
                ));
                assert(bounds_lines(s@, bounds@.push((start, end))) =~= bounds_lines(s@, bounds@)
                    + seq![s@.subrange(start as int, end as int)]);
                assert(bounds_lines(s@, bounds@) + (seq![s@.subrange(start as int, end as int)]
                    + lines_of(s@.subrange(i + 1, n as int))) =~= (bounds_lines(s@, bounds@)
                    + seq![s@.subrange(start as int, end as int)]) + lines_of(
                    s@.subrange(i + 1, n as int),
                ));
            }
            bounds.push((start, end));
            start = i + 1;
        }
        i += 1;
    }
    if start < n {
        proof {
            let suf = s@.subrange(start as int, n as int);
            assert(forall|t: int| 0 <= t < suf.len() ==> #[trigger] suf[t] == s@[t + start]);
            lemma_lines_of_no_newline(suf);
            assert(bounds_lines(s@, bounds@.push((start, n))) =~= bounds_lines(s@, bounds@)
                + seq![s@.subrange(start as int, n as int)]);
        }
        bounds.push((start, n));
    } else {
        proof {
            assert(s@.subrange(start as int, n as int).len() == 0);
            assert(bounds_lines(s@, bounds@) + lines_of(s@.subrange(start as int, n as int))
                =~= bounds_lines(s@, bounds@));
        }
    }
    proof {
        assert(lines_of(s@) =~= bounds_lines(s@, bounds@));
        assert(forall|k: int|
            0 <= k < bounds@.len() ==> lines_of(s@)[k] == #[trigger] bounds_lines(
                s@,
                bounds@,
            )[k]);
    }
    bounds
}

/// Append `count` spaces to `out`.
fn append_spaces(out: &mut String, count: usize)
    ensures
        final(out)@ == old(out)@ + spaces(count as nat),
{
    proof {
        assert(old(out)@ + spaces(0) =~= old(out)@);
    }
    let mut t: usize = 0;
    while t < count
        invariant
            0 <= t <= count,
            out@ == old(out)@ + spaces(t as nat),
        decreases count - t,
    {
        out.append(" ");
        proof {
            reveal_strlit(" ");
            assert(" "@ =~= seq![' ']);
            assert(old(out)@ + spaces(t as nat) + seq![' '] =~= old(out)@ + spaces(
                (t + 1) as nat,
            ));
        }
        t += 1;
    }
}

/// Center a block of text: pad every line with spaces, the longest
/// line fixing the width, the extra space of an odd padding going to
/// the right.
pub fn center_text(text: &str) -> (r: String)
    ensures
        r@ == center_text_spec(text@),
{
    proof {
        lemma_max_line_len_ge(lines_of(text@));
    }
    let ghost ls = lines_of(text@);
    let bounds = text_line_bounds(text);
    let nb = bounds.len();
    if nb == 0 {
        proof {
            assert(ls.map_values(
                |l: Seq<char>| center_line(l, max_line_len(lines_of(text@))),
            ).len() == 0);
        }
        return String::new();
    }
    let n = text.unicode_len();
    let mut m: usize = 0;
    let mut k: usize = 0;
    while k < nb
        invariant
            n == text@.len(),
            nb == bounds@.len() == ls.len(),
            ls == lines_of(text@),
            forall|j: int|
                0 <= j < nb ==> (#[trigger] bounds@[j]).0 <= bounds@[j].1 <= n && ls[j]
                    == text@.subrange(bounds@[j].0 as int, bounds@[j].1 as int),
            0 <= k <= nb,
            m <= n,
            m as nat == max_line_len(ls.subrange(0, k as int)),
        decreases nb - k,
    {
        let len_k = bounds[k].1 - bounds[k].0;
        proof {
            assert(ls[k as int].len() == bounds@[k as int].1 - bounds@[k as int].0);
            assert(ls.subrange(0, k + 1).drop_last() =~= ls.subrange(0, k as int));
            assert(ls.subrange(0, k + 1).last() == ls[k as int]);
        }
        if len_k > m {
            m = len_k;
        }
        k += 1;
    }
    proof {
        assert(ls.subrange(0, nb as int) =~= ls);
    }
    let ghost mm = max_line_len(ls);
    let ghost cls = ls.map_values(|l: Seq<char>| center_line(l, max_line_len(lines_of(text@))));
    let mut out = String::new();
    proof {
        assert(cls.skip(0) =~= cls);
        assert(out@ + join_lines(cls) =~= join_lines(cls));
    }
    let mut k: usize = 0;
    while k < nb
        invariant
            n == text@.len(),
            nb == bounds@.len() == ls.len(),
            ls == lines_of(text@),
            nb >= 1,
            forall|j: int|
                0 <= j < nb ==> (#[trigger] bounds@[j]).0 <= bounds@[j].1 <= n && ls[j]
                    == text@.subrange(bounds@[j].0 as int, bounds@[j].1 as int),
            forall|j: int| 0 <= j < nb ==> (#[trigger] ls[j]).len() <= mm,
            m as nat == mm,
            mm == max_line_len(ls),
            cls == ls.map_values(
                |l: Seq<char>| center_line(l, max_line_len(lines_of(text@))),
            ),
            0 <= k <= nb,
            out@ + join_lines(cls.skip(k as int)) == join_lines(cls),
        decreases nb - k,
    {
        let ghost out0 = out@;
        let start_k = bounds[k].0;
        let end_k = bounds[k].1;
        let len_k = end_k - start_k;
        let pad = m - len_k;
        let left = pad / 2;
        let right = pad - left;
        append_spaces(&mut out, left);
        let line = text.substring_char(start_k, end_k);
        out.append(line);
        append_spaces(&mut out, right);
        proof {
            assert(cls[k as int] == center_line(ls[k as int], mm));
            assert(out@ =~= out0 + cls[k as int]);
        }
        if k + 1 < nb {
            out.append("\n");
            proof {
                reveal_strlit("\n");
                assert("\n"@ =~= seq!['\n']);
                assert(cls.skip(k as int)[0] == cls[k as int]);
                assert(cls.skip(k as int).skip(1) =~= cls.skip(k + 1));
                assert(join_lines(cls.skip(k as int)) == cls[k as int] + seq!['\n'] + join_lines(
                    cls.skip(k + 1),
                ));
                assert(out0 + cls[k as int] + seq!['\n'] + join_lines(cls.skip(k + 1)) =~= out0
                    + (cls[k as int] + seq!['\n'] + join_lines(cls.skip(k + 1))));
            }
        } else {
            proof {
                assert(cls.skip(k as int).len() == 1);
                assert(cls.skip(k as int)[0] == cls[k as int]);
                assert(join_lines(cls.skip(k as int)) == cls.skip(k as int)[0]);
                assert(cls.skip(k + 1) =~= Seq::<Seq<char>>::empty());
                assert(out0 + cls[k as int] + join_lines(cls.skip(k + 1)) =~= out0
                    + cls[k as int]);
            }
        }
        k += 1;
    }
    proof {
        assert(cls.skip(nb as int) =~= Seq::<Seq<char>>::empty());
        assert(out@ + join_lines(cls.skip(nb as int)) =~= out@);
        assert(out@ == join_lines(cls));
    }
    out
}

/// What `str::to_uppercase` returns for a text: a function of the
/// characters alone.
pub uninterp spec fn upper_of(s: Seq<char>) -> Seq<char>;

/// Relies on str::to_uppercase: Unicode uppercasing, determined by the
/// characters alone; an empty string stays empty.
#[verifier::external_body]
fn to_upper(s: &str) -> (r: String)
    ensures
        r@ == upper_of(s@),
        s@.len() == 0 ==> r@.len() == 0,
{
    s.to_uppercase()
}

/// Row `i` of the big-text expansion of one line: the glyphs' rows
/// laid side by side, each followed by a two-space separator.
pub open spec fn row_of_seg(a: Alphabet, seg: Seq<char>, i: int) -> Seq<char>
    decreases seg.len(),
{
    if seg.len() == 0 {
        Seq::<char>::empty()
    } else {
        row_of_seg(a, seg.drop_last(), i) + a.spec_get(seg.last())[i] + seq![' ', ' ']
    }
}

/// All `letter_height` rows of the big-text expansion of one line.
pub open spec fn rows_of_seg(a: Alphabet, seg: Seq<char>) -> Seq<Seq<char>> {
    Seq::new(a.letter_height as nat, |i: int| row_of_seg(a, seg, i))
}

/// `n` empty rows.
pub open spec fn blank_rows(n: nat) -> Seq<Seq<char>> {
    Seq::new(n, |i: int| Seq::<char>::empty())
}

/// The big-text expansion of a whole text: each line expanded to
/// `letter_height` rows, with `line_spacing` blank rows between lines.
pub open spec fn big_rows(a: Alphabet, segs: Seq<Seq<char>>) -> Seq<Seq<char>>
    decreases segs.len(),
{
    if segs.len() == 0 {
        Seq::<Seq<char>>::empty()
    } else if segs.len() == 1 {
        rows_of_seg(a, segs[0])
    } else {
        rows_of_seg(a, segs[0]) + blank_rows(a.line_spacing as nat) + big_rows(a, segs.skip(1))
    }
}

/// An empty text expands to exactly `letter_height` empty rows, never
/// to zero rows.
pub proof fn lemma_empty_text_rows(a: Alphabet, u: Seq<char>)
    requires
        u.len() == 0,
    ensures
        big_rows(a, split_lines(u)).len() == a.letter_height,
        forall|i: int|
            0 <= i < a.letter_height ==> #[trigger] big_rows(a, split_lines(u))[i].len() == 0,
{
    assert(u =~= Seq::<char>::empty());
    assert(split_lines(u) == seq![Seq::<char>::empty()]);
    assert(big_rows(a, split_lines(u)) == rows_of_seg(a, Seq::<char>::empty()));
    assert(forall|i: int|
        0 <= i < a.letter_height ==> #[trigger] rows_of_seg(a, Seq::<char>::empty())[i]
            == row_of_seg(a, Seq::<char>::empty(), i));
}

/// Expand a text into big multi-row ascii art: the text is uppercased,
/// each line becomes `letter_height` rows of glyph art, and lines are
/// separated by `line_spacing` blank rows.
pub fn render_big_text(text: &str, alphabet: &Alphabet) -> (r: Vec<String>)
    requires
        alphabet.wf(),
    ensures
        rows_view(r@) == big_rows(*alphabet, split_lines(upper_of(text@))),
        text@.len() == 0 ==> r@.len() == alphabet.letter_height && forall|i: int|
            0 <= i < r@.len() ==> (#[trigger] r@[i])@.len() == 0,
{
    let upper = to_upper(text);
    let ghost u = upper@;
    let ghost segs = split_lines(u);
    let ghost a = *alphabet;
    let bounds = segment_bounds(upper.as_str());
    let nb = bounds.len();
    let n = upper.as_str().unicode_len();
    let h = alphabet.letter_height;
    let sp = alphabet.line_spacing;
    let mut out: Vec<String> = Vec::new();
    proof {
        lemma_split_lines_nonempty(u);
        assert(segs.skip(0) =~= segs);
        assert(rows_view(out@) =~= Seq::<Seq<char>>::empty());
        assert(rows_view(out@) + big_rows(a, segs) =~= big_rows(a, segs));
    }
    let mut k: usize = 0;
    while k < nb
        invariant
            a == *alphabet,
            a.wf(),
            h == a.letter_height,
            sp == a.line_spacing,
            u == upper@,
            n == u.len(),
            segs == split_lines(u),
            nb == bounds@.len() == segs.len(),
            forall|j: int|
                0 <= j < nb ==> (#[trigger] bounds@[j]).0 <= bounds@[j].1 <= n && segs[j]
                    == u.subrange(bounds@[j].0 as int, bounds@[j].1 as int),
            0 <= k <= nb,
            k < nb ==> rows_view(out@) + big_rows(a, segs.skip(k as int)) == big_rows(a, segs),
            k == nb ==> rows_view(out@) == big_rows(a, segs),
        decreases nb - k,
    {
        let ghost outk = rows_view(out@);
        let ghost seg = segs[k as int];
        let start_k = bounds[k].0;
        let end_k = bounds[k].1;
        let len_k = end_k - start_k;
        let mut i: usize = 0;
        while i < h
            invariant
                a == *alphabet,
                a.wf(),
                h == a.letter_height,
                u == upper@,
                n == u.len(),
                0 <= start_k <= end_k <= n,
                len_k == end_k - start_k,
                seg == u.subrange(start_k as int, end_k as int),
                0 <= i <= h,
                rows_view(out@) == outk + Seq::new(i as nat, |r: int| row_of_seg(a, seg, r)),
            decreases h - i,
        {
            let mut row = String::new();
            let mut j: usize = 0;
            while j < len_k
                invariant
                    a == *alphabet,
                    a.wf(),
                    h == a.letter_height,
                    i < h,
                    u == upper@,
                    n == u.len(),
                    0 <= start_k <= end_k <= n,
                    len_k == end_k - start_k,
                    seg == u.subrange(start_k as int, end_k as int),
                    0 <= j <= len_k,
                    row@ == row_of_seg(a, seg.subrange(0, j as int), i as int),
                decreases len_k - j,
            {
                let c = upper.as_str().get_char(start_k + j);
                proof {
                    assert(c == seg[j as int]);
                }
                let glyph = alphabet.get(c);
                let ghost row0 = row@;
                row.append(glyph[i].as_str());
                row.append("  ");
                proof {
                    reveal_strlit("  ");
                    assert("  "@ =~= seq![' ', ' ']);
                    assert(rows_view(glyph@)[i as int] == glyph@[i as int]@);
                    let pref = seg.subrange(0, j + 1);
                    assert(pref.drop_last() =~= seg.subrange(0, j as int));
                    assert(pref.last() == seg[j as int]);
                    assert(row_of_seg(a, pref, i as int) == row_of_seg(
                        a,
                        seg.subrange(0, j as int),
                        i as int,
                    ) + a.spec_get(seg[j as int])[i as int] + seq![' ', ' ']);
                    assert(row@ =~= row0 + a.spec_get(seg[j as int])[i as int] + seq![' ', ' ']);
                }
                j += 1;
            }
            proof {
                assert(seg.subrange(0, len_k as int) =~= seg);
                assert(row@ == row_of_seg(a, seg, i as int));
            }
            let ghost pre = out@;
            out.push(row);
            proof {
                assert(out@ == pre.push(row));
                assert(out@.len() == pre.len() + 1);
                assert(rows_view(pre) == outk + Seq::new(i as nat, |r: int| row_of_seg(a, seg, r)));
                assert(rows_view(pre).len() == pre.len());
                assert(Seq::new(i as nat, |r: int| row_of_seg(a, seg, r)).len() == i as nat);
                assert((outk + Seq::new(i as nat, |r: int| row_of_seg(a, seg, r))).len()
                    == outk.len() + i as int);
                assert(pre.len() == outk.len() + i as int);
                assert forall|x: int| 0 <= x < out@.len() implies rows_view(out@)[x] == (outk
                    + Seq::new((i + 1) as nat, |r: int| row_of_seg(a, seg, r)))[x] by {
                    assert(rows_view(out@)[x] == out@[x]@);
                    if x < pre.len() {
                        assert(out@[x] == pre[x]);
                        assert(pre[x]@ == rows_view(pre)[x]);
                    } else {
                        assert(out@[x]@ == row_of_seg(a, seg, i as int));
                    }
                }
                assert(rows_view(out@) =~= outk + Seq::new(
                    (i + 1) as nat,
                    |r: int| row_of_seg(a, seg, r),
                ));
            }
            i += 1;
        }
        proof {
            assert(Seq::new(h as nat, |r: int| row_of_seg(a, seg, r)) == rows_of_seg(a, seg));
        }
        if k + 1 < nb {
            let ghost outr = rows_view(out@);
            let mut t: usize = 0;
            while t < sp
                invariant
                    0 <= t <= sp,
                    rows_view(out@) == outr + Seq::new(t as nat, |r: int| Seq::<char>::empty()),
                decreases sp - t,
            {
                let blank = String::new();
                let ghost pre = out@;
                out.push(blank);
                proof {
                    assert(out@[pre.len() as int]@ =~= Seq::<char>::empty());
                    assert(rows_view(pre).len() == pre.len());
                    assert(Seq::new(t as nat, |r: int| Seq::<char>::empty()).len() == t as nat);
                    assert((outr + Seq::new(t as nat, |r: int| Seq::<char>::empty())).len()
                        == outr.len() + t as int);
                    assert(pre.len() == outr.len() + t as int);
                    assert forall|x: int| 0 <= x < out@.len() implies rows_view(out@)[x] == (outr
                        + Seq::new((t + 1) as nat, |r: int| Seq::<char>::empty()))[x] by {
                        assert(rows_view(out@)[x] == out@[x]@);
                        if x < pre.len() {
                            assert(out@[x] == pre[x]);
                            assert(pre[x]@ == rows_view(pre)[x]);
                        }
                    }
                    assert(rows_view(out@) =~= outr + Seq::new(
                        (t + 1) as nat,
                        |r: int| Seq::<char>::empty(),
                    ));
                }
                t += 1;
            }
            proof {
                assert(Seq::new(sp as nat, |r: int| Seq::<char>::empty()) == blank_rows(
                    sp as nat,
                ));
                assert(segs.skip(k as int)[0] == segs[k as int]);
                assert(segs.skip(k as int).skip(1) =~= segs.skip(k + 1));
                assert(big_rows(a, segs.skip(k as int)) == rows_of_seg(a, seg) + blank_rows(
                    sp as nat,
                ) + big_rows(a, segs.skip(k + 1)));
                assert(outk + (rows_of_seg(a, seg) + blank_rows(sp as nat) + big_rows(
                    a,
                    segs.skip(k + 1),
                )) =~= (outk + rows_of_seg(a, seg) + blank_rows(sp as nat)) + big_rows(
                    a,
                    segs.skip(k + 1),
                ));
                assert(rows_view(out@) =~= outk + rows_of_seg(a, seg) + blank_rows(sp as nat));
            }
        } else {
            proof {
                assert(segs.skip(k as int).len() == 1);
                assert(segs.skip(k as int)[0] == segs[k as int]);
                assert(big_rows(a, segs.skip(k as int)) == rows_of_seg(a, seg));
                assert(rows_view(out@) =~= outk + rows_of_seg(a, seg));
            }
        }
        k += 1;
    }
    proof {
        if upper@.len() == 0 {
            lemma_empty_text_rows(a, u);
            assert(forall|i: int|
                0 <= i < out@.len() ==> (#[trigger] out@[i])@ == rows_view(out@)[i]);
        }
    }
    out
}

} // verus!
