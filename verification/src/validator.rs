//! The validator: drains a scanner's whole stream and enforces the
//! statement-termination rule on the last unit it produced, yielding status
//! code 0 on success or a precise diagnostic on failure.

use vstd::prelude::*;

use crate::scanner::LexicalUnit;
use crate::scanner::ScanResult;
use crate::scanner::ScanState;
use crate::scanner::Scanner;
use crate::scanner::UnitModel;
use crate::scanner::lemma_next_step_progress;
use crate::scanner::scan_from;
use crate::text::contains_colon;
use crate::text::dec_rep;
use crate::text::file_name_of;
use crate::text::file_name_part;
use crate::text::lemma_file_name_of_is_last_component;
use crate::text::start_of_file_name;
use crate::text::usize_to_string;

verus! {

/// Relies on `regex::Regex::new` and `regex::Regex::is_match`. The pattern
/// `:\n?\r?` is a valid regular expression, so `new` returns `Ok` and the
/// `unwrap` cannot panic. `is_match` returns true if and only if the pattern
/// matches anywhere in the haystack; since both line-break characters of the
/// pattern are optional, a match exists exactly when the text contains a
/// colon.
#[verifier::external_body]
fn terminator_matches(s: &str) -> (r: bool)
    ensures
        r == contains_colon(s@),
{
    regex::Regex::new(r":\n?\r?").unwrap().is_match(s)
}

/// The failure reported when the scanner produced no unit at all: an empty
/// program cannot satisfy the terminator rule.
pub open spec fn empty_source_message() -> Seq<char> {
    "Syntax error - ':' expected but the source is empty"@
}

/// The failure reported when a diagnostic is owed but the source path has no
/// final component to name in it.
pub open spec fn no_file_name_message() -> Seq<char> {
    "Syntax error - the source path has no file name"@
}

/// The diagnostic for a last unit that does not satisfy the terminator rule,
/// naming its position, the file name, and the full path.
pub open spec fn diagnostic_message(line: int, column: int, path: Seq<char>) -> Seq<char> {
    "Syntax error at "@ + dec_rep(line) + ":"@ + dec_rep(column) + " in \""@ + file_name_of(path)
        + "\" (\""@ + path + "\") - ':' expected"@
}

fn empty_source_error() -> (r: String)
    ensures
        r@ == empty_source_message(),
{
    "Syntax error - ':' expected but the source is empty".to_owned()
}

fn no_file_name_error() -> (r: String)
    ensures
        r@ == no_file_name_message(),
{
    "Syntax error - the source path has no file name".to_owned()
}

fn build_diagnostic(line: usize, column: usize, file_name: &str, path: &str) -> (r: String)
    requires
        file_name@ == file_name_of(path@),
    ensures
        r@ == diagnostic_message(line as int, column as int, path@),
{
    let mut s = "Syntax error at ".to_owned();
    let l = usize_to_string(line);
    s.append(l.as_str());
    s.append(":");
    let c = usize_to_string(column);
    s.append(c.as_str());
    s.append(" in \"");
    s.append(file_name);
    s.append("\" (\"");
    s.append(path);
    s.append("\") - ':' expected");
    proof {
        assert(s@ =~= diagnostic_message(line as int, column as int, path@));
    }
    s
}

/// What validating a scan of the given state must yield: the scanner's own
/// error when scanning fails; a failure when no unit was produced; status 0
/// when the last unit's lexeme contains a colon; and the positioned
/// diagnostic otherwise.
pub open spec fn validation_outcome(s: ScanState) -> Result<u8, Seq<char>> {
    match scan_from(s) {
        Result::Err(m) => Result::Err(m),
        Result::Ok(units) => if units.len() == 0 {
            Result::Err(empty_source_message())
        } else if contains_colon(units.last().lexeme) {
            Result::Ok(0u8)
        } else if file_name_of(s.path).len() == 0 {
            Result::Err(no_file_name_message())
        } else {
            Result::Err(diagnostic_message(units.last().line, units.last().column, s.path))
        },
    }
}

/// Enforces the structural rule that the last meaningful unit of a program
/// carries the statement terminator.
pub struct Validator {}

impl Validator {
    /// Drains the scanner and applies the terminator rule to the last unit
    /// seen before the end of input. A lexical error is passed through
    /// verbatim; success carries status code 0.
    #[verifier::loop_isolation(false)]
    pub fn run(scanner: Scanner) -> (r: Result<u8, String>)
        requires
            scanner.wf(),
        ensures
            ({
                let expected = validation_outcome(scanner@);
                &&& (r is Ok <==> expected is Ok)
                &&& (r is Ok ==> r->Ok_0 == expected->Ok_0)
                &&& (r is Err ==> (r->Err_0)@ == expected->Err_0)
            }),
            // Success exactly when the scan succeeds, produced at least one
            // unit, and the last unit's lexeme contains a colon.
            (scan_from(scanner@) matches Result::Ok(units) && units.len() > 0 && contains_colon(
                units.last().lexeme,
            )) ==> r is Ok && r->Ok_0 == 0u8,
            // A last unit without a colon always yields a failure.
            (scan_from(scanner@) matches Result::Ok(units) && units.len() > 0 && !contains_colon(
                units.last().lexeme,
            )) ==> r is Err,
            // When the path has a file name, that failure is the diagnostic
            // carrying the unit's exact line and column.
            (scan_from(scanner@) matches Result::Ok(units) && units.len() > 0 && !contains_colon(
                units.last().lexeme,
            ) && file_name_of(scanner@.path).len() > 0) ==> r is Err && (r->Err_0)@
                == diagnostic_message(
                scan_from(scanner@)->Ok_0.last().line,
                scan_from(scanner@)->Ok_0.last().column,
                scanner@.path,
            ),
    {
        let ghost s0 = scanner@;
        let mut scanner = scanner;
        let mut last: Option<LexicalUnit> = None;
        let ghost mut seen: Seq<UnitModel> = Seq::empty();
        proof {
            if scan_from(s0) is Ok {
                assert(seen + scan_from(s0)->Ok_0 =~= scan_from(s0)->Ok_0);
            }
        }
        loop
            invariant
                scanner.wf(),
                scanner@.src == s0.src,
                scanner@.path == s0.path,
                s0.wf(),
                (match scan_from(scanner@) {
                    Result::Ok(rest) => scan_from(s0) == Result::<Seq<UnitModel>, Seq<char>>::Ok(
                        seen + rest,
                    ),
                    Result::Err(m) => scan_from(s0) == Result::<Seq<UnitModel>, Seq<char>>::Err(m),
                }),
                (match last {
                    Option::None => seen.len() == 0,
                    Option::Some(u) => seen.len() > 0 && u@ == seen.last() && u@.source_path
                        == s0.path,
                }),
            decreases scanner@.src.len() - scanner@.pos,
        {
            let ghost pre = scanner@;
            let ghost seen0 = seen;
            let step = scanner.next();
            proof {
                lemma_next_step_progress(pre);
            }
            match step {
                ScanResult::Unit(u) => {
                    proof {
                        seen = seen.push(u@);
                        if scan_from(scanner@) is Ok {
                            assert(seen0 + (seq![u@] + scan_from(scanner@)->Ok_0) =~= seen
                                + scan_from(scanner@)->Ok_0);
                        }
                    }
                    last = Some(u);
                },
                ScanResult::End => {
                    proof {
                        assert(scan_from(pre) == Result::<Seq<UnitModel>, Seq<char>>::Ok(
                            Seq::<UnitModel>::empty(),
                        ));
                        assert(seen0 + Seq::<UnitModel>::empty() =~= seen0);
                    }
                    match last {
                        Option::None => {
                            return Err(empty_source_error());
                        },
                        Option::Some(u) => {
                            if terminator_matches(u.lexeme.as_str()) {
                                return Ok(0);
                            }
                            let fname = file_name_part(u.source_path.as_str());
                            if fname.unicode_len() == 0 {
                                return Err(no_file_name_error());
                            }
                            return Err(
                                build_diagnostic(
                                    u.line,
                                    u.column,
                                    fname,
                                    u.source_path.as_str(),
                                ),
                            );
                        },
                    }
                },
                ScanResult::Error(m) => {
                    proof {
                        assert(scan_from(pre) == Result::<Seq<UnitModel>, Seq<char>>::Err(m@));
                    }
                    return Err(m);
                },
            }
        }
    }
}

/// Round-trip: a failure diagnostic decomposes into a prefix, the final
/// component of the supplied source path, and a suffix — so the file name it
/// embeds is exactly that final component, which contains no `/` and is
/// exactly what the path ends with.
pub proof fn lemma_diagnostic_embeds_file_name(line: int, column: int, path: Seq<char>)
    ensures
        diagnostic_message(line, column, path) == ("Syntax error at "@ + dec_rep(line) + ":"@
            + dec_rep(column) + " in \""@) + file_name_of(path) + ("\" (\""@ + path
            + "\") - ':' expected"@),
        forall|i: int| 0 <= i < file_name_of(path).len() ==> file_name_of(path)[i] != '/',
        path == path.subrange(0, start_of_file_name(path)) + file_name_of(path),
{
    lemma_file_name_of_is_last_component(path);
    assert(diagnostic_message(line, column, path) =~= ("Syntax error at "@ + dec_rep(line) + ":"@
        + dec_rep(column) + " in \""@) + file_name_of(path) + ("\" (\""@ + path
        + "\") - ':' expected"@));
    assert forall|i: int| 0 <= i < file_name_of(path).len() implies file_name_of(path)[i]
        != '/' by {
        assert(file_name_of(path)[i] == path[start_of_file_name(path) + i]);
    }
}

} // verus!
