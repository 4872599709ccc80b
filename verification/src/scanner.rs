//! The lexical scanner: a pull-based cursor over source text that produces
//! positioned lexical units one at a time.
//!
//! A unit is either a quoted string literal, or a word (a maximal run of
//! characters that are neither whitespace nor a quote). A word that contains
//! a colon is a statement head: its lexeme absorbs the rest of its line,
//! including the terminating line feed. An opening quote with no closing
//! quote is the one lexical error.

use vstd::prelude::*;

use crate::text::contains_colon;
use crate::text::dec_rep;
use crate::text::char_at;
use crate::text::lemma_contains_colon_push;
use crate::text::usize_to_string;

verus! {

/// The whitespace characters that separate lexical units.
pub open spec fn is_space(c: char) -> bool {
    c == ' ' || c == '\t' || c == '\r' || c == '\n'
}

/// Abstract state of a scanner: the source text, the originating path, the
/// cursor, and the 1-based position of the cursor.
#[verifier::ext_equal]
pub struct ScanState {
    pub src: Seq<char>,
    pub path: Seq<char>,
    pub pos: int,
    pub line: int,
    pub column: int,
}

impl ScanState {
    /// The cursor stays inside the text, positions are 1-based, and the sum
    /// of line and column never outruns the cursor (each consumed character
    /// raises one of the two by at most one).
    pub open spec fn wf(self) -> bool {
        &&& 0 <= self.pos <= self.src.len()
        &&& self.line >= 1
        &&& self.column >= 1
        &&& self.line + self.column <= self.pos + 2
        &&& self.src.len() + 2 <= usize::MAX
    }

    /// The state a fresh scanner starts in.
    pub open spec fn initial(src: Seq<char>, path: Seq<char>) -> ScanState {
        ScanState { src, path, pos: 0, line: 1, column: 1 }
    }
}

/// Abstract content of one produced lexical unit.
#[verifier::ext_equal]
pub struct UnitModel {
    pub lexeme: Seq<char>,
    pub line: int,
    pub column: int,
    pub source_path: Seq<char>,
}

/// Abstract outcome of one scan step: a unit, the end of input, or a
/// lexical error carrying its message.
#[verifier::ext_equal]
pub enum StepModel {
    Unit(UnitModel),
    End,
    Error(Seq<char>),
}

/// `(line, column)` is not lexicographically after `(line2, column2)`.
pub open spec fn pos_le(line: int, column: int, line2: int, column2: int) -> bool {
    line < line2 || (line == line2 && column <= column2)
}

/// Position after consuming one character: a line feed starts the next line.
pub open spec fn advance_one(line: int, column: int, c: char) -> (int, int) {
    if c == '\n' {
        (line + 1, 1)
    } else {
        (line, column + 1)
    }
}

/// Position after consuming a run of characters.
pub open spec fn advance_over(line: int, column: int, s: Seq<char>) -> (int, int)
    decreases s.len(),
{
    if s.len() == 0 {
        (line, column)
    } else {
        let lc = advance_one(line, column, s[0]);
        advance_over(lc.0, lc.1, s.drop_first())
    }
}

pub proof fn lemma_advance_over_push(line: int, column: int, s: Seq<char>, c: char)
    ensures
        advance_over(line, column, s.push(c)) == advance_one(
            advance_over(line, column, s).0,
            advance_over(line, column, s).1,
            c,
        ),
    decreases s.len(),
{
    if s.len() == 0 {
        assert(s.push(c)[0] == c);
        assert(s.push(c).drop_first() =~= Seq::<char>::empty());
        let lc = advance_one(line, column, c);
        assert(advance_over(line, column, s.push(c)) == advance_over(
            lc.0,
            lc.1,
            s.push(c).drop_first(),
        ));
        assert(advance_over(lc.0, lc.1, s.push(c).drop_first()) == lc);
        assert(advance_over(line, column, s) == (line, column));
    } else {
        assert(s.push(c)[0] == s[0]);
        assert(s.push(c).drop_first() =~= s.drop_first().push(c));
        let lc = advance_one(line, column, s[0]);
        lemma_advance_over_push(lc.0, lc.1, s.drop_first(), c);
        assert(advance_over(line, column, s.push(c)) == advance_over(
            lc.0,
            lc.1,
            s.drop_first().push(c),
        ));
        assert(advance_over(line, column, s) == advance_over(lc.0, lc.1, s.drop_first()));
    }
}

/// Consuming text never moves the position lexicographically backwards, keeps
/// line and column at least 1, and raises their sum by at most one per
/// character.
pub proof fn lemma_advance_over_bounds(line: int, column: int, s: Seq<char>)
    requires
        line >= 1,
        column >= 1,
    ensures
        advance_over(line, column, s).0 >= 1,
        advance_over(line, column, s).1 >= 1,
        advance_over(line, column, s).0 + advance_over(line, column, s).1 <= line + column
            + s.len(),
        pos_le(line, column, advance_over(line, column, s).0, advance_over(line, column, s).1),
    decreases s.len(),
{
    if s.len() > 0 {
        let lc = advance_one(line, column, s[0]);
        lemma_advance_over_bounds(lc.0, lc.1, s.drop_first());
    }
}

/// First index at or after `i` holding a character that is not whitespace;
/// the length of the text when there is none.
pub open spec fn skip_spaces(src: Seq<char>, i: int) -> int
    decreases src.len() - i,
{
    if i < 0 {
        i
    } else if i >= src.len() {
        src.len() as int
    } else if !is_space(src[i]) {
        i
    } else {
        skip_spaces(src, i + 1)
    }
}

pub proof fn lemma_skip_spaces(src: Seq<char>, i: int)
    requires
        0 <= i <= src.len(),
    ensures
        i <= skip_spaces(src, i) <= src.len(),
        skip_spaces(src, i) < src.len() ==> !is_space(src[skip_spaces(src, i)]),
        forall|k: int| i <= k < skip_spaces(src, i) ==> is_space(src[k]),
    decreases src.len() - i,
{
    if i < src.len() && is_space(src[i]) {
        lemma_skip_spaces(src, i + 1);
    }
}

/// First index at or after `i` holding whitespace or a quote — the first
/// index past the word that starts at `i`; the length of the text when the
/// word runs to the end.
pub open spec fn word_end(src: Seq<char>, i: int) -> int
    decreases src.len() - i,
{
    if i < 0 {
        i
    } else if i >= src.len() {
        src.len() as int
    } else if is_space(src[i]) || src[i] == '"' {
        i
    } else {
        word_end(src, i + 1)
    }
}

pub proof fn lemma_word_end(src: Seq<char>, i: int)
    requires
        0 <= i <= src.len(),
    ensures
        i <= word_end(src, i) <= src.len(),
        word_end(src, i) < src.len() ==> (is_space(src[word_end(src, i)]) || src[word_end(
            src,
            i,
        )] == '"'),
        forall|k: int|
            i <= k < word_end(src, i) ==> (!is_space(src[k]) && src[k] != '"'),
    decreases src.len() - i,
{
    if i < src.len() && !is_space(src[i]) && src[i] != '"' {
        lemma_word_end(src, i + 1);
    }
}

/// First index at or after `i` holding the given character; the length of
/// the text when there is none.
pub open spec fn find_char(src: Seq<char>, i: int, target: char) -> int
    decreases src.len() - i,
{
    if i < 0 {
        i
    } else if i >= src.len() {
        src.len() as int
    } else if src[i] == target {
        i
    } else {
        find_char(src, i + 1, target)
    }
}

pub proof fn lemma_find_char(src: Seq<char>, i: int, target: char)
    requires
        0 <= i <= src.len(),
    ensures
        i <= find_char(src, i, target) <= src.len(),
        find_char(src, i, target) < src.len() ==> src[find_char(src, i, target)] == target,
        forall|k: int| i <= k < find_char(src, i, target) ==> src[k] != target,
    decreases src.len() - i,
{
    if i < src.len() && src[i] != target {
        lemma_find_char(src, i + 1, target);
    }
}

/// The message a lexical error carries: the offending position of the
/// opening quote that is never closed.
pub open spec fn lex_error_message(line: int, column: int) -> Seq<char> {
    "Lexical error at "@ + dec_rep(line) + ":"@ + dec_rep(column)
        + " - unterminated string literal"@
}

/// One scan step: the outcome, and the state the scanner is left in.
///
/// Whitespace before the unit is consumed first. A quote opens a string
/// literal that runs to the matching quote, or fails without one. Any other
/// character opens a word; a word containing a colon absorbs the rest of
/// its line, including the line feed.
pub open spec fn next_step(s: ScanState) -> (StepModel, ScanState) {
    let p = skip_spaces(s.src, s.pos);
    let lc = advance_over(s.line, s.column, s.src.subrange(s.pos, p));
    if p >= s.src.len() {
        (StepModel::End, ScanState { pos: p, line: lc.0, column: lc.1, ..s })
    } else if s.src[p] == '"' {
        let q = find_char(s.src, p + 1, '"');
        if q < s.src.len() {
            let lexeme = s.src.subrange(p, q + 1);
            let lc2 = advance_over(lc.0, lc.1, lexeme);
            (
                StepModel::Unit(
                    UnitModel { lexeme, line: lc.0, column: lc.1, source_path: s.path },
                ),
                ScanState { pos: q + 1, line: lc2.0, column: lc2.1, ..s },
            )
        } else {
            (
                StepModel::Error(lex_error_message(lc.0, lc.1)),
                ScanState { pos: p, line: lc.0, column: lc.1, ..s },
            )
        }
    } else {
        let e = word_end(s.src, p);
        let le = find_char(s.src, e, '\n');
        let end = if contains_colon(s.src.subrange(p, e)) {
            if le < s.src.len() {
                le + 1
            } else {
                le
            }
        } else {
            e
        };
        let lexeme = s.src.subrange(p, end);
        let lc2 = advance_over(lc.0, lc.1, lexeme);
        (
            StepModel::Unit(UnitModel { lexeme, line: lc.0, column: lc.1, source_path: s.path }),
            ScanState { pos: end, line: lc2.0, column: lc2.1, ..s },
        )
    }
}

/// A step from a well-formed state leaves a well-formed state over the same
/// text and path, never moves the cursor back, and moves it strictly
/// forward whenever it produces a unit. The unit is stamped with the
/// position where it begins, which is not before the position the state
/// held, and not after the position the state is left with.
pub proof fn lemma_next_step_progress(s: ScanState)
    requires
        s.wf(),
    ensures
        next_step(s).1.wf(),
        next_step(s).1.src == s.src,
        next_step(s).1.path == s.path,
        s.pos <= next_step(s).1.pos,
        next_step(s).0 is Unit ==> s.pos < next_step(s).1.pos,
        next_step(s).0 is Unit ==> {
            let u = next_step(s).0->Unit_0;
            &&& u.source_path == s.path
            &&& pos_le(s.line, s.column, u.line, u.column)
            &&& pos_le(u.line, u.column, next_step(s).1.line, next_step(s).1.column)
            &&& u.line >= 1
            &&& u.column >= 1
        },
        next_step(s).0 is End ==> next_step(s).1.pos == s.src.len(),
        pos_le(s.line, s.column, next_step(s).1.line, next_step(s).1.column),
{
    let p = skip_spaces(s.src, s.pos);
    lemma_skip_spaces(s.src, s.pos);
    let ws = s.src.subrange(s.pos, p);
    lemma_advance_over_bounds(s.line, s.column, ws);
    let lc = advance_over(s.line, s.column, ws);
    if p >= s.src.len() {
    } else if s.src[p] == '"' {
        let q = find_char(s.src, p + 1, '"');
        lemma_find_char(s.src, p + 1, '"');
        if q < s.src.len() {
            let lexeme = s.src.subrange(p, q + 1);
            lemma_advance_over_bounds(lc.0, lc.1, lexeme);
        }
    } else {
        let e = word_end(s.src, p);
        lemma_word_end(s.src, p);
        let le = find_char(s.src, e, '\n');
        lemma_find_char(s.src, e, '\n');
        let end = if contains_colon(s.src.subrange(p, e)) {
            if le < s.src.len() {
                le + 1
            } else {
                le
            }
        } else {
            e
        };
        let lexeme = s.src.subrange(p, end);
        lemma_advance_over_bounds(lc.0, lc.1, lexeme);
    }
}

/// The full stream of units a scanner produces from a state, or the message
/// of the lexical error it runs into.
pub open spec fn scan_from(s: ScanState) -> Result<Seq<UnitModel>, Seq<char>>
    decreases s.src.len() - s.pos,
    when s.wf()
    via scan_from_decreases
{
    match next_step(s).0 {
        StepModel::End => Ok(Seq::empty()),
        StepModel::Error(m) => Err(m),
        StepModel::Unit(u) => match scan_from(next_step(s).1) {
            Ok(units) => Ok(seq![u] + units),
            Err(m) => Err(m),
        },
    }
}

#[via_fn]
proof fn scan_from_decreases(s: ScanState) {
    lemma_next_step_progress(s);
}

/// One lexical unit: the exact text matched, the 1-based position where it
/// begins, and the path the source came from.
pub struct LexicalUnit {
    pub lexeme: String,
    pub line: usize,
    pub column: usize,
    pub source_path: String,
}

impl View for LexicalUnit {
    type V = UnitModel;

    open spec fn view(&self) -> UnitModel {
        UnitModel {
            lexeme: self.lexeme@,
            line: self.line as int,
            column: self.column as int,
            source_path: self.source_path@,
        }
    }
}

/// The outcome of one scan step: a unit was produced, the end of input was
/// reached, or a lexical error occurred.
pub enum ScanResult {
    Unit(LexicalUnit),
    End,
    Error(String),
}

impl View for ScanResult {
    type V = StepModel;

    open spec fn view(&self) -> StepModel {
        match self {
            ScanResult::Unit(u) => StepModel::Unit(u@),
            ScanResult::End => StepModel::End,
            ScanResult::Error(m) => StepModel::Error(m@),
        }
    }
}

/// Whether the character separates lexical units.
pub fn is_space_char(c: char) -> (r: bool)
    ensures
        r == is_space(c),
{
    c == ' ' || c == '\t' || c == '\r' || c == '\n'
}

fn build_lex_error(line: usize, column: usize) -> (r: String)
    ensures
        r@ == lex_error_message(line as int, column as int),
{
    let mut s = "Lexical error at ".to_owned();
    let l = usize_to_string(line);
    s.append(l.as_str());
    s.append(":");
    let c = usize_to_string(column);
    s.append(c.as_str());
    s.append(" - unterminated string literal");
    proof {
        assert(s@ =~= lex_error_message(line as int, column as int));
    }
    s
}

/// A cursor over one source text. Created once per (source, path) pair and
/// pulled with `next` until it reports the end of input or an error.
pub struct Scanner {
    source: String,
    path: String,
    len: usize,
    pos: usize,
    line: usize,
    column: usize,
}

impl View for Scanner {
    type V = ScanState;

    closed spec fn view(&self) -> ScanState {
        ScanState {
            src: self.source@,
            path: self.path@,
            pos: self.pos as int,
            line: self.line as int,
            column: self.column as int,
        }
    }
}

impl Scanner {
    /// The scanner's cached character count agrees with its text.
    pub closed spec fn len_ok(self) -> bool {
        self.len == self@.src.len()
    }

    /// The abstract state is well formed and the cached character count
    /// agrees with the text.
    pub open spec fn wf(self) -> bool {
        &&& self@.wf()
        &&& self.len_ok()
    }

    /// A fresh scanner over a source text and its originating path, standing
    /// at line 1, column 1.
    pub fn new(source: String, path: String) -> (s: Scanner)
        requires
            source@.len() + 2 <= usize::MAX,
        ensures
            s.wf(),
            s@ == ScanState::initial(source@, path@),
    {
        let len = source.as_str().unicode_len();
        Scanner { source, path, len, pos: 0, line: 1, column: 1 }
    }

    /// Consumes the text up to `end`, advancing line and column character by
    /// character, and returns the unit stamped with the position where the
    /// consumed text begins.
    fn take_unit(&mut self, end: usize) -> (u: LexicalUnit)
        requires
            old(self).wf(),
            old(self)@.pos <= end as int <= old(self)@.src.len(),
        ensures
            final(self).wf(),
            final(self)@.src == old(self)@.src,
            final(self)@.path == old(self)@.path,
            final(self)@.pos == end as int,
            final(self)@.line == advance_over(
                old(self)@.line,
                old(self)@.column,
                old(self)@.src.subrange(old(self)@.pos, end as int),
            ).0,
            final(self)@.column == advance_over(
                old(self)@.line,
                old(self)@.column,
                old(self)@.src.subrange(old(self)@.pos, end as int),
            ).1,
            u@ == (UnitModel {
                lexeme: old(self)@.src.subrange(old(self)@.pos, end as int),
                line: old(self)@.line,
                column: old(self)@.column,
                source_path: old(self)@.path,
            }),
    {
        let ghost s0 = self@;
        let lexeme = self.source.as_str().substring_char(self.pos, end).to_owned();
        let unit_line = self.line;
        let unit_column = self.column;
        let path = self.path.clone();
        proof {
            assert(s0.src.subrange(s0.pos, s0.pos) =~= Seq::<char>::empty());
        }
        loop
            invariant
                self.wf(),
                self@.src == s0.src,
                self@.path == s0.path,
                s0.wf(),
                s0.pos <= self@.pos <= end as int,
                end as int <= s0.src.len(),
                advance_over(s0.line, s0.column, s0.src.subrange(s0.pos, self@.pos)) == (
                    self@.line,
                    self@.column,
                ),
            ensures
                self.wf(),
                self@.src == s0.src,
                self@.path == s0.path,
                self@.pos == end as int,
                advance_over(s0.line, s0.column, s0.src.subrange(s0.pos, self@.pos)) == (
                    self@.line,
                    self@.column,
                ),
            decreases end as int - self@.pos,
        {
            if self.pos >= end {
                break ;
            }
            let c = char_at(&self.source, self.pos);
            proof {
                assert(s0.src.subrange(s0.pos, self@.pos + 1) =~= s0.src.subrange(
                    s0.pos,
                    self@.pos,
                ).push(s0.src[self@.pos]));
                lemma_advance_over_push(
                    s0.line,
                    s0.column,
                    s0.src.subrange(s0.pos, self@.pos),
                    s0.src[self@.pos],
                );
            }
            if c == '\n' {
                self.line = self.line + 1;
                self.column = 1;
            } else {
                self.column = self.column + 1;
            }
            self.pos = self.pos + 1;
        }
        LexicalUnit { lexeme, line: unit_line, column: unit_column, source_path: path }
    }

    /// Produces the next lexical unit, or reports the end of input or a
    /// lexical error. Once the end of input has been reached, every further
    /// call again reports the end of input and leaves the scanner unchanged.
    pub fn next(&mut self) -> (r: ScanResult)
        requires
            old(self).wf(),
        ensures
            final(self).wf(),
            r@ == next_step(old(self)@).0,
            final(self)@ == next_step(old(self)@).1,
            old(self)@.pos == old(self)@.src.len() ==> r@ is End && final(self)@ == old(self)@,
    {
        let ghost s0 = self@;
        proof {
            lemma_skip_spaces(s0.src, s0.pos);
            assert(s0.src.subrange(s0.pos, s0.pos) =~= Seq::<char>::empty());
        }
        // Consume the whitespace before the unit.
        loop
            invariant
                self.wf(),
                self@.src == s0.src,
                self@.path == s0.path,
                s0.wf(),
                s0.pos <= self@.pos <= s0.src.len(),
                skip_spaces(s0.src, s0.pos) == skip_spaces(s0.src, self@.pos),
                advance_over(s0.line, s0.column, s0.src.subrange(s0.pos, self@.pos)) == (
                    self@.line,
                    self@.column,
                ),
            ensures
                self.wf(),
                self@.src == s0.src,
                self@.path == s0.path,
                self@.pos == skip_spaces(s0.src, s0.pos),
                advance_over(s0.line, s0.column, s0.src.subrange(s0.pos, self@.pos)) == (
                    self@.line,
                    self@.column,
                ),
            decreases s0.src.len() - self@.pos,
        {
            if self.pos >= self.len {
                break ;
            }
            let c = char_at(&self.source, self.pos);
            if !is_space_char(c) {
                break ;
            }
            proof {
                assert(s0.src.subrange(s0.pos, self@.pos + 1) =~= s0.src.subrange(
                    s0.pos,
                    self@.pos,
                ).push(s0.src[self@.pos]));
                lemma_advance_over_push(
                    s0.line,
                    s0.column,
                    s0.src.subrange(s0.pos, self@.pos),
                    s0.src[self@.pos],
                );
            }
            if c == '\n' {
                self.line = self.line + 1;
                self.column = 1;
            } else {
                self.column = self.column + 1;
            }
            self.pos = self.pos + 1;
        }
        let ghost p = self@.pos;
        let ghost mid = self@;
        if self.pos >= self.len {
            proof {
                assert(self@ =~= next_step(s0).1);
                if s0.pos == s0.src.len() {
                    assert(self@ =~= s0);
                }
            }
            return ScanResult::End;
        }
        let c = char_at(&self.source, self.pos);
        if c == '"' {
            // A string literal: find the closing quote.
            proof {
                lemma_find_char(s0.src, p + 1, '"');
            }
            let mut q = self.pos + 1;
            loop
                invariant
                    self.wf(),
                    self@ == mid,
                    mid.src == s0.src,
                    p + 1 <= q as int <= s0.src.len(),
                    find_char(s0.src, p + 1, '"') == find_char(s0.src, q as int, '"'),
                ensures
                    self@ == mid,
                    q as int == find_char(s0.src, p + 1, '"'),
                decreases s0.src.len() - q as int,
            {
                if q >= self.len {
                    break ;
                }
                let cq = char_at(&self.source, q);
                if cq == '"' {
                    break ;
                }
                q = q + 1;
            }
            if q < self.len {
                let unit = self.take_unit(q + 1);
                proof {
                    assert(unit@ =~= next_step(s0).0->Unit_0);
                    assert(self@ =~= next_step(s0).1);
                }
                ScanResult::Unit(unit)
            } else {
                let msg = build_lex_error(self.line, self.column);
                proof {
                    assert(self@ =~= next_step(s0).1);
                }
                ScanResult::Error(msg)
            }
        } else {
            // A word: find its end, then extend a statement head to the end
            // of its line.
            proof {
                lemma_word_end(s0.src, p);
                assert(s0.src.subrange(p, p) =~= Seq::<char>::empty());
            }
            let mut e = self.pos;
            loop
                invariant
                    self.wf(),
                    self@ == mid,
                    mid.src == s0.src,
                    p <= e as int <= s0.src.len(),
                    word_end(s0.src, p) == word_end(s0.src, e as int),
                ensures
                    self@ == mid,
                    e as int == word_end(s0.src, p),
                decreases s0.src.len() - e as int,
            {
                if e >= self.len {
                    break ;
                }
                let ce = char_at(&self.source, e);
                if is_space_char(ce) {
                    break ;
                }
                if ce == '"' {
                    break ;
                }
                e = e + 1;
            }
            let mut has_colon = false;
            let mut i = self.pos;
            loop
                invariant
                    self.wf(),
                    self@ == mid,
                    mid.src == s0.src,
                    p <= i as int <= e as int,
                    e as int <= s0.src.len(),
                    e as int == word_end(s0.src, p),
                    has_colon == contains_colon(s0.src.subrange(p, i as int)),
                ensures
                    self@ == mid,
                    e as int == word_end(s0.src, p),
                    has_colon == contains_colon(s0.src.subrange(p, e as int)),
                decreases e as int - i as int,
            {
                if i >= e {
                    break ;
                }
                let ci = char_at(&self.source, i);
                proof {
                    assert(s0.src.subrange(p, i as int + 1) =~= s0.src.subrange(p, i as int).push(
                        s0.src[i as int],
                    ));
                    lemma_contains_colon_push(s0.src.subrange(p, i as int), s0.src[i as int]);
                }
                if ci == ':' {
                    has_colon = true;
                }
                i = i + 1;
            }
            let end2: usize;
            if has_colon {
                proof {
                    lemma_find_char(s0.src, e as int, '\n');
                }
                let mut le = e;
                loop
                    invariant
                        self.wf(),
                        self@ == mid,
                        mid.src == s0.src,
                        e as int <= le as int <= s0.src.len(),
                        find_char(s0.src, e as int, '\n') == find_char(s0.src, le as int, '\n'),
                    ensures
                        self@ == mid,
                        le as int == find_char(s0.src, e as int, '\n'),
                    decreases s0.src.len() - le as int,
                {
                    if le >= self.len {
                        break ;
                    }
                    let cl = char_at(&self.source, le);
                    if cl == '\n' {
                        break ;
                    }
                    le = le + 1;
                }
                if le < self.len {
                    end2 = le + 1;
                } else {
                    end2 = le;
                }
            } else {
                end2 = e;
            }
            let unit = self.take_unit(end2);
            proof {
                assert(unit@ =~= next_step(s0).0->Unit_0);
                assert(self@ =~= next_step(s0).1);
            }
            ScanResult::Unit(unit)
        }
    }
}

/// Scanning is idempotent at the end of input: a step taken from a state
/// that has just reported the end of input reports it again — never a unit
/// and never an error — and leaves the state unchanged.
pub proof fn lemma_end_is_idempotent(s: ScanState)
    requires
        s.wf(),
        next_step(s).0 is End,
    ensures
        next_step(next_step(s).1).0 is End,
        next_step(next_step(s).1).1 == next_step(s).1,
{
    lemma_next_step_progress(s);
    let s1 = next_step(s).1;
    assert(s1.pos == s1.src.len());
    assert(s1.src.subrange(s1.pos, s1.pos) =~= Seq::<char>::empty());
    assert(next_step(s1).1 =~= s1);
}

/// Position monotonicity: the units one scan produces appear in
/// lexicographically non-decreasing (line, column) order, and none of them
/// lies before the position the scan started at.
pub proof fn lemma_scan_positions_monotonic(s: ScanState)
    requires
        s.wf(),
    ensures
        scan_from(s) is Ok ==> {
            let units = scan_from(s)->Ok_0;
            &&& forall|k: int|
                0 <= k < units.len() ==> pos_le(
                    s.line,
                    s.column,
                    (#[trigger] units[k]).line,
                    units[k].column,
                )
            &&& forall|i: int, j: int|
                0 <= i <= j < units.len() ==> pos_le(
                    (#[trigger] units[i]).line,
                    units[i].column,
                    (#[trigger] units[j]).line,
                    units[j].column,
                )
        },
    decreases s.src.len() - s.pos,
{
    lemma_next_step_progress(s);
    match next_step(s).0 {
        StepModel::End => {},
        StepModel::Error(_) => {},
        StepModel::Unit(u) => {
            let s2 = next_step(s).1;
            lemma_scan_positions_monotonic(s2);
            if scan_from(s2) is Ok {
                let rest = scan_from(s2)->Ok_0;
                let units = scan_from(s)->Ok_0;
                assert(units == seq![u] + rest);
                assert(units[0] == u);
                assert(forall|k: int| 1 <= k < units.len() ==> units[k] == rest[k - 1]);
            }
        },
    }
}

} // verus!
