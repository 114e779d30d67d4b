//! A game from its configuration to its end: the palette, the secret and
//! the solver are read from the arguments, then the solver guesses until
//! it hits the secret or runs out of attempts.

use crate::attempt::{compute_score, is_feedback, Attempt, Score};
use crate::code::{Code, Color, OPEN};
use crate::scoring::{lemma_all_black_iff_equal, lemma_own_attempt};
use crate::solver::node::full_tree_size;
use crate::solver::tree_with_surrender::MAX_ATTEMPT_GENERATIONS;
use crate::solver::{drawn_from, AnySolver, Solver, SolverConstructor};
use vstd::prelude::*;
use vstd::string::StringSliceAdditionalSpecFns;
use vstd::utf8::{encode_utf8, encode_utf8_decode_utf8};

verus! {

/// The number of arguments of a game, the name of the program included.
pub const ARGUMENT_COUNT: usize = 5;

/// The longest secret that is generated on request.
pub const MAX_GENERATED_LENGTH: usize = 10;

/// The number of guesses that a solver is given.
pub const MAX_ATTEMPT_COUNT: usize = 10;

/// Why a configuration is refused.
#[derive(Clone, Copy, PartialEq, Eq, Debug, Structural)]
pub enum ConfigurationError {
    /// The number of arguments is not `ARGUMENT_COUNT` but this.
    ArgumentCount(usize),
    /// The charset holds the open marker.
    CharsetHoldsOpenMarker,
    /// The charset holds a character more than once.
    CharsetHoldsDuplicates,
    /// The length of the secret to generate is no number.
    LengthUnparsable,
    /// The length of the secret to generate is above `MAX_GENERATED_LENGTH`.
    LengthTooLarge,
    /// The secret holds characters that the charset does not hold.
    ColorsOutsideCharset,
    /// The solution type is neither `generate` nor `input`.
    UnknownSolutionType,
    /// No solver of that name is registered.
    UnknownSolver,
}

/// Some value occurs twice in `s`.
pub open spec fn has_duplicates(s: Seq<Color>) -> bool {
    exists|i: int, j: int| 0 <= i < j < s.len() && s[i] == s[j]
}

/// The values of `s` grow from each position to the next.
pub open spec fn strictly_increasing(s: Seq<Color>) -> bool {
    forall|i: int, j: int| 0 <= i < j < s.len() ==> s[i] < s[j]
}

/// What is wrong with a charset, if anything.
pub open spec fn charset_fault(charset: Seq<Color>) -> Option<ConfigurationError> {
    if charset.contains(OPEN) {
        Some(ConfigurationError::CharsetHoldsOpenMarker)
    } else if has_duplicates(charset) {
        Some(ConfigurationError::CharsetHoldsDuplicates)
    } else {
        None
    }
}

/// `palette` holds the colors of `charset`, each once, in increasing
/// order.
pub open spec fn is_palette_of(palette: Seq<Color>, charset: Seq<Color>) -> bool {
    &&& strictly_increasing(palette)
    &&& forall|c: Color| palette.contains(c) <==> charset.contains(c)
}

proof fn lemma_palettes_agree(
    first: Seq<Color>,
    second: Seq<Color>,
    charset: Seq<Color>,
    i: int,
)
    requires
        is_palette_of(first, charset),
        is_palette_of(second, charset),
        0 <= i < first.len(),
    ensures
        i < second.len(),
        first[i] == second[i],
    decreases i,
{
    assert forall|j: int| 0 <= j < i implies j < second.len() && first[j] == second[j] by {
        lemma_palettes_agree(first, second, charset, j);
    }
    assert(first.contains(first[i]));
    let k = choose|k: int| 0 <= k < second.len() && second[k] == first[i];
    if k < i {
        assert(first[k] == second[k]);
    }
    assert(second.contains(second[i]));
    let m = choose|m: int| 0 <= m < first.len() && first[m] == second[i];
    if m < i {
        assert(first[m] == second[m]);
    }
}

/// A charset has one palette: two sequences that hold its colors in
/// increasing order are the same.
pub proof fn lemma_palette_is_unique(first: Seq<Color>, second: Seq<Color>, charset: Seq<Color>)
    requires
        is_palette_of(first, charset),
        is_palette_of(second, charset),
    ensures
        first == second,
{
    assert forall|i: int| 0 <= i < first.len() implies i < second.len() && first[i]
        == second[i] by {
        lemma_palettes_agree(first, second, charset, i);
    }
    if second.len() > first.len() {
        lemma_palettes_agree(second, first, charset, first.len() as int);
    }
    if first.len() > second.len() {
        lemma_palettes_agree(first, second, charset, second.len() as int);
    }
    assert(first =~= second);
}

/// A table with one mark, still unset, for each value of a peg.
fn no_marks() -> (marks: Vec<bool>)
    ensures
        marks@.len() == 256,
        forall|c: int| 0 <= c < 256 ==> !marks@[c],
{
    let mut marks: Vec<bool> = Vec::new();
    while marks.len() < 256
        invariant
            marks@.len() <= 256,
            forall|c: int| 0 <= c < marks@.len() ==> !marks@[c],
        decreases 256 - marks@.len(),
    {
        marks.push(false);
    }
    marks
}

/// Reads the palette from the characters of `charset`. A charset with the
/// open marker is refused, then one that names a color twice; else the
/// palette holds the colors in increasing order.
pub fn parse_charset(charset: &str) -> (parsed: Result<Vec<Color>, ConfigurationError>)
    ensures
        match parsed {
            Ok(palette) => charset_fault(charset.spec_bytes()) is None && is_palette_of(
                palette@,
                charset.spec_bytes(),
            ),
            Err(error) => charset_fault(charset.spec_bytes()) == Some(error),
        },
{
    let bytes = charset.as_bytes();
    let ghost given = charset.spec_bytes();

    let mut checked: usize = 0;
    while checked < bytes.len()
        invariant
            given == charset.spec_bytes(),
            bytes@ == given,
            checked <= given.len(),
            forall|i: int| 0 <= i < checked ==> given[i] != OPEN,
        decreases given.len() - checked,
    {
        if bytes[checked] == OPEN {
            proof {
                assert(given[checked as int] == OPEN);
            }
            return Err(ConfigurationError::CharsetHoldsOpenMarker);
        }
        checked += 1;
    }

    let mut seen: Vec<bool> = no_marks();
    let mut marked: usize = 0;
    while marked < bytes.len()
        invariant
            given == charset.spec_bytes(),
            bytes@ == given,
            marked <= given.len(),
            !given.contains(OPEN),
            seen@.len() == 256,
            forall|c: int|
                0 <= c < 256 ==> (#[trigger] seen@[c] <==> exists|i: int|
                    0 <= i < marked && given[i] == c),
            forall|i: int, j: int| 0 <= i < j < marked ==> given[i] != given[j],
        decreases given.len() - marked,
    {
        let color: Color = bytes[marked];
        if seen[color as usize] {
            proof {
                let first = choose|i: int| 0 <= i < marked && given[i] == color;
                assert(0 <= first < marked < given.len() && given[first] == given[marked as int]);
                assert(has_duplicates(given));
            }
            return Err(ConfigurationError::CharsetHoldsDuplicates);
        }
        let ghost before = seen@;
        seen.set(color as usize, true);
        proof {
            assert forall|c: int| 0 <= c < 256 implies (#[trigger] seen@[c] <==> exists|i: int|
                0 <= i < marked + 1 && given[i] == c) by {
                if c == color {
                    assert(given[marked as int] == c);
                } else {
                    if before[c] {
                        let i = choose|i: int| 0 <= i < marked && given[i] == c;
                        assert(0 <= i < marked + 1 && given[i] == c);
                    }
                }
            }
        }
        marked += 1;
    }
    proof {
        assert(!has_duplicates(given));
    }

    let mut palette: Vec<Color> = Vec::new();
    let mut color: usize = 0;
    while color < 256
        invariant
            color <= 256,
            seen@.len() == 256,
            forall|i: int| 0 <= i < palette@.len() ==> (#[trigger] palette@[i]) < color,
            strictly_increasing(palette@),
            forall|c: Color| palette@.contains(c) <==> c < color && seen@[c as int],
        decreases 256 - color,
    {
        if seen[color] {
            let ghost before = palette@;
            palette.push(color as Color);
            proof {
                assert forall|c: Color| palette@.contains(c) <==> c < color + 1 && seen@[c as int] by {
                    if palette@.contains(c) {
                        let i = choose|i: int| 0 <= i < palette@.len() && palette@[i] == c;
                        if i < before.len() {
                            assert(before.contains(c));
                        }
                    }
                    if c < color + 1 && seen@[c as int] {
                        if c < color {
                            assert(before.contains(c));
                            let i = choose|i: int| 0 <= i < before.len() && before[i] == c;
                            assert(palette@[i] == c);
                        } else {
                            assert(palette@[before.len() as int] == c);
                        }
                    }
                }
            }
        }
        color += 1;
    }
    proof {
        assert forall|c: Color| palette@.contains(c) <==> given.contains(c) by {
            if seen@[c as int] {
                let i = choose|i: int| 0 <= i < given.len() && given[i] == c;
                assert(given.contains(c));
            }
            if given.contains(c) {
                let i = choose|i: int| 0 <= i < given.len() && given[i] == c;
                assert(seen@[c as int]);
            }
        }
    }
    Ok(palette)
}

/// The two texts are the same.
pub fn same_text(a: &str, b: &str) -> (same: bool)
    ensures
        same == (a@ == b@),
{
    let left = a.as_bytes();
    let right = b.as_bytes();
    proof {
        encode_utf8_decode_utf8(a@);
        encode_utf8_decode_utf8(b@);
    }
    if left.len() != right.len() {
        return false;
    }
    let mut compared: usize = 0;
    while compared < left.len()
        invariant
            left@ == a.spec_bytes(),
            right@ == b.spec_bytes(),
            left@.len() == right@.len(),
            compared <= left@.len(),
            forall|i: int| 0 <= i < compared ==> left@[i] == right@[i],
        decreases left@.len() - compared,
    {
        if left[compared] != right[compared] {
            return false;
        }
        compared += 1;
    }
    proof {
        assert(left@ =~= right@);
    }
    true
}

/// The byte is a decimal digit.
pub open spec fn is_digit(byte: u8) -> bool {
    48 <= byte <= 57
}

/// The number that the first `n` of `digits` write in decimal.
pub open spec fn digits_value(digits: Seq<u8>, n: int) -> nat
    decreases n,
{
    if n <= 0 {
        0
    } else {
        10 * digits_value(digits, n - 1) + (digits[n - 1] - 48) as nat
    }
}

/// The text without the plus sign that may stand at its front.
pub open spec fn unsigned_part(text: Seq<u8>) -> Seq<u8> {
    if text.len() > 0 && text[0] == 43 {
        text.subrange(1, text.len() as int)
    } else {
        text
    }
}

/// The number that `text` writes: decimal digits, at least one, after at
/// most one plus sign, and nothing else.
pub open spec fn decimal_value(text: Seq<u8>) -> Option<nat> {
    let digits = unsigned_part(text);
    if digits.len() > 0 && forall|i: int| 0 <= i < digits.len() ==> is_digit(digits[i]) {
        Some(digits_value(digits, digits.len() as int))
    } else {
        None
    }
}

/// The length that `text` writes, if it writes a number that fits a
/// machine word.
pub open spec fn parsed_length(text: Seq<u8>) -> Option<usize> {
    match decimal_value(text) {
        Some(value) => if value <= usize::MAX {
            Some(value as usize)
        } else {
            None
        },
        None => None,
    }
}

proof fn lemma_digits_value_grows(digits: Seq<u8>, shorter: int, longer: int)
    requires
        0 <= shorter <= longer <= digits.len(),
        forall|i: int| 0 <= i < digits.len() ==> is_digit(digits[i]),
    ensures
        digits_value(digits, shorter) <= digits_value(digits, longer),
    decreases longer - shorter,
{
    if shorter < longer {
        lemma_digits_value_grows(digits, shorter, longer - 1);
    }
}

/// Reads a length from its decimal notation.
pub fn parse_length(text: &str) -> (length: Option<usize>)
    ensures
        length == parsed_length(text.spec_bytes()),
{
    let bytes = text.as_bytes();
    let ghost given = text.spec_bytes();
    let start: usize = if bytes.len() > 0 && bytes[0] == 43 {
        1
    } else {
        0
    };
    let ghost digits = unsigned_part(given);
    if start == bytes.len() {
        return None;
    }
    let mut value: usize = 0;
    let mut read: usize = start;
    while read < bytes.len()
        invariant
            given == text.spec_bytes(),
            bytes@ == given,
            digits == unsigned_part(given),
            digits.len() == given.len() - start,
            forall|i: int| 0 <= i < digits.len() ==> digits[i] == given[start + i],
            start <= read <= given.len(),
            forall|i: int| 0 <= i < read - start ==> is_digit(digits[i]),
            value == digits_value(digits, read - start),
        decreases given.len() - read,
    {
        let byte: u8 = bytes[read];
        if byte < 48 || byte > 57 {
            proof {
                assert(!is_digit(digits[read - start]));
            }
            return None;
        }
        let digit: usize = (byte - 48) as usize;
        let grown: Option<usize> = match value.checked_mul(10) {
            Some(tenfold) => tenfold.checked_add(digit),
            None => None,
        };
        match grown {
            Some(next) => {
                value = next;
            },
            None => {
                proof {
                    assert(digits_value(digits, read - start + 1) > usize::MAX);
                    if forall|i: int| 0 <= i < digits.len() ==> is_digit(digits[i]) {
                        lemma_digits_value_grows(digits, read - start + 1, digits.len() as int);
                    }
                }
                return None;
            },
        }
        read += 1;
    }
    Some(value)
}

/// Whether `palette` holds `color`.
pub fn holds_color(palette: &Vec<Color>, color: Color) -> (held: bool)
    ensures
        held == palette@.contains(color),
{
    let mut looked: usize = 0;
    while looked < palette.len()
        invariant
            looked <= palette@.len(),
            forall|i: int| 0 <= i < looked ==> palette@[i] != color,
        decreases palette@.len() - looked,
    {
        if palette[looked] == color {
            return true;
        }
        looked += 1;
    }
    false
}

/// The pegs among the first `n` of `text` that are no colors of `palette`,
/// in their order.
pub open spec fn outside_upto(text: Seq<Color>, palette: Seq<Color>, n: int) -> Seq<Color>
    decreases n,
{
    if n <= 0 {
        Seq::empty()
    } else if palette.contains(text[n - 1]) {
        outside_upto(text, palette, n - 1)
    } else {
        outside_upto(text, palette, n - 1).push(text[n - 1])
    }
}

/// No peg is outside the palette exactly when every peg is of the
/// palette.
pub proof fn lemma_none_outside(text: Seq<Color>, palette: Seq<Color>, n: int)
    requires
        0 <= n <= text.len(),
    ensures
        outside_upto(text, palette, n).len() == 0 <==> forall|i: int|
            0 <= i < n ==> palette.contains(#[trigger] text[i]),
    decreases n,
{
    if n > 0 {
        lemma_none_outside(text, palette, n - 1);
        if outside_upto(text, palette, n).len() == 0 {
            assert forall|i: int| 0 <= i < n implies palette.contains(#[trigger] text[i]) by {
                if i < n - 1 {
                }
            }
        }
    }
}

/// The characters of `solution` that `available_colors` does not hold.
pub fn colors_outside(solution: &str, available_colors: &Vec<Color>) -> (illegal: Vec<Color>)
    ensures
        illegal@ == outside_upto(
            solution.spec_bytes(),
            available_colors@,
            solution.spec_bytes().len() as int,
        ),
        illegal@.len() == 0 <==> drawn_from(solution.spec_bytes(), available_colors@),
{
    let bytes = solution.as_bytes();
    let mut illegal: Vec<Color> = Vec::new();
    let mut read: usize = 0;
    while read < bytes.len()
        invariant
            bytes@ == solution.spec_bytes(),
            read <= bytes@.len(),
            illegal@ == outside_upto(bytes@, available_colors@, read as int),
        decreases bytes@.len() - read,
    {
        if !holds_color(available_colors, bytes[read]) {
            illegal.push(bytes[read]);
        }
        read += 1;
    }
    proof {
        lemma_none_outside(bytes@, available_colors@, bytes@.len() as int);
    }
    illegal
}

/// What is wrong with the request for a secret, if anything: `generate`
/// asks for a length up to `MAX_GENERATED_LENGTH`, `input` gives the secret
/// itself, which must be made of the palette.
pub open spec fn solution_fault(
    solution_type: Seq<char>,
    second_argument: Seq<Color>,
    palette: Seq<Color>,
) -> Option<ConfigurationError> {
    if solution_type == "generate"@ {
        match parsed_length(second_argument) {
            None => Some(ConfigurationError::LengthUnparsable),
            Some(length) => if length > MAX_GENERATED_LENGTH {
                Some(ConfigurationError::LengthTooLarge)
            } else {
                None
            },
        }
    } else if solution_type == "input"@ {
        if drawn_from(second_argument, palette) {
            None
        } else {
            Some(ConfigurationError::ColorsOutsideCharset)
        }
    } else {
        Some(ConfigurationError::UnknownSolutionType)
    }
}

/// The request is for a generated secret with at least one peg.
pub open spec fn asks_for_pegs(solution_type: Seq<char>, second_argument: Seq<Color>) -> bool {
    &&& solution_type == "generate"@
    &&& parsed_length(second_argument) matches Some(length)
    &&& 0 < length <= MAX_GENERATED_LENGTH
}

/// Makes the secret: draws it at random where `solution_type` is
/// `generate`, with the length that `second_argument` writes, and takes
/// `second_argument` itself where it is `input`. Pegs cannot be drawn from
/// an empty palette.
pub fn parse_solution(
    solution_type: &str,
    second_argument: &str,
    available_colors: &Vec<Color>,
) -> (parsed: Result<Code, ConfigurationError>)
    requires
        asks_for_pegs(solution_type@, second_argument.spec_bytes()) ==> available_colors@.len()
            > 0,
    ensures
        match parsed {
            Ok(solution) => {
                &&& solution_fault(
                    solution_type@,
                    second_argument.spec_bytes(),
                    available_colors@,
                ) is None
                &&& drawn_from(solution@, available_colors@)
                &&& if solution_type@ == "generate"@ {
                    Some(solution@.len() as usize) == parsed_length(second_argument.spec_bytes())
                } else {
                    solution@ == second_argument.spec_bytes()
                }
            },
            Err(error) => solution_fault(
                solution_type@,
                second_argument.spec_bytes(),
                available_colors@,
            ) == Some(error),
        },
{
    if same_text(solution_type, "generate") {
        match parse_length(second_argument) {
            Some(solution_length) => {
                if solution_length > MAX_GENERATED_LENGTH {
                    Err(ConfigurationError::LengthTooLarge)
                } else {
                    Ok(Code::generate(solution_length, available_colors))
                }
            },
            None => Err(ConfigurationError::LengthUnparsable),
        }
    } else if same_text(solution_type, "input") {
        let illegal_colors = colors_outside(second_argument, available_colors);
        if illegal_colors.len() != 0 {
            Err(ConfigurationError::ColorsOutsideCharset)
        } else {
            Ok(Code::from_str(second_argument))
        }
    } else {
        Err(ConfigurationError::UnknownSolutionType)
    }
}

/// The first entry of `registry` that goes by `name` is the one at
/// `index`.
pub open spec fn is_first_named(
    registry: Seq<SolverConstructor>,
    name: Seq<char>,
    index: int,
) -> bool {
    &&& 0 <= index < registry.len()
    &&& registry[index].label() == name
    &&& forall|j: int| 0 <= j < index ==> (#[trigger] registry[j]).label() != name
}

/// Some entry of `registry` goes by `name`.
pub open spec fn is_registered(registry: Seq<SolverConstructor>, name: Seq<char>) -> bool {
    exists|index: int| 0 <= index < registry.len() && (#[trigger] registry[index]).label() == name
}

/// Takes the solver that goes by `name` out of the registry.
pub fn parse_solver_name(name: &str, solver_constructors: &mut Vec<SolverConstructor>) -> (parsed:
    Result<SolverConstructor, ConfigurationError>)
    ensures
        match parsed {
            Ok(constructor) => exists|index: int|
                {
                    &&& #[trigger] is_first_named(old(solver_constructors)@, name@, index)
                    &&& constructor == old(solver_constructors)@[index]
                    &&& final(solver_constructors)@ == old(solver_constructors)@.remove(index)
                },
            Err(error) => {
                &&& error == ConfigurationError::UnknownSolver
                &&& !is_registered(old(solver_constructors)@, name@)
                &&& final(solver_constructors)@ == old(solver_constructors)@
            },
        },
{
    let mut looked: usize = 0;
    while looked < solver_constructors.len()
        invariant
            *solver_constructors == *old(solver_constructors),
            looked <= solver_constructors@.len(),
            forall|j: int|
                0 <= j < looked ==> (#[trigger] solver_constructors@[j]).label() != name@,
        decreases solver_constructors@.len() - looked,
    {
        if same_text(solver_constructors[looked].name(), name) {
            let constructor = solver_constructors.remove(looked);
            proof {
                assert(is_first_named(old(solver_constructors)@, name@, looked as int));
            }
            return Ok(constructor);
        }
        looked += 1;
    }
    Err(ConfigurationError::UnknownSolver)
}

/// What is wrong with the arguments of a game, if anything. They are the
/// name of the program, the charset, the solution type, its argument and
/// the name of the solver; the first fault in that order is the one
/// reported.
pub open spec fn arguments_fault(
    args: Seq<String>,
    registry: Seq<SolverConstructor>,
) -> Option<ConfigurationError> {
    if args.len() != ARGUMENT_COUNT {
        Some(ConfigurationError::ArgumentCount(args.len() as usize))
    } else if charset_fault(encode_utf8(args[1]@)) is Some {
        charset_fault(encode_utf8(args[1]@))
    } else if solution_fault(args[2]@, encode_utf8(args[3]@), encode_utf8(args[1]@)) is Some {
        solution_fault(args[2]@, encode_utf8(args[3]@), encode_utf8(args[1]@))
    } else if !is_registered(registry, args[4]@) {
        Some(ConfigurationError::UnknownSolver)
    } else {
        None
    }
}

/// Reads a game from its arguments: the palette, the secret, and the
/// solver, which is taken out of the registry. Nothing is taken out where
/// the arguments are refused. Pegs cannot be drawn from an empty charset.
pub fn parse_args(args: &Vec<String>, solver_constructors: &mut Vec<SolverConstructor>) -> (parsed:
    Result<(Vec<Color>, Code, AnySolver), ConfigurationError>)
    requires
        args@.len() == ARGUMENT_COUNT && asks_for_pegs(args@[2]@, encode_utf8(args@[3]@))
            ==> args@[1]@.len() > 0,
    ensures
        match parsed {
            Ok((palette, solution, solver)) => {
                &&& arguments_fault(args@, old(solver_constructors)@) is None
                &&& is_palette_of(palette@, encode_utf8(args@[1]@))
                &&& drawn_from(solution@, palette@)
                &&& if args@[2]@ == "generate"@ {
                    Some(solution@.len() as usize) == parsed_length(encode_utf8(args@[3]@))
                } else {
                    solution@ == encode_utf8(args@[3]@)
                }
                &&& solver.label() == args@[4]@
                &&& solver.palette() == palette@
                &&& solver.length() == solution@.len()
                &&& solver.history() == Seq::<Attempt>::empty()
                &&& 2 * solution@.len() <= usize::MAX ==> solver.ready()
                &&& solver.will_offer(solution@) <==> (solver is Random || full_tree_size(
                    solution@.len(),
                    palette@.len(),
                ) <= MAX_ATTEMPT_GENERATIONS)
                &&& exists|index: int|
                    {
                        &&& #[trigger] is_first_named(
                            old(solver_constructors)@,
                            args@[4]@,
                            index,
                        )
                        &&& final(solver_constructors)@ == old(solver_constructors)@.remove(index)
                    }
            },
            Err(error) => {
                &&& arguments_fault(args@, old(solver_constructors)@) == Some(error)
                &&& final(solver_constructors)@ == old(solver_constructors)@
            },
        },
{
    if args.len() != ARGUMENT_COUNT {
        return Err(ConfigurationError::ArgumentCount(args.len()));
    }
    let ghost charset = encode_utf8(args@[1]@);
    let available_colors = match parse_charset(args[1].as_str()) {
        Ok(palette) => palette,
        Err(error) => {
            return Err(error);
        },
    };
    proof {
        if args@[1]@.len() > 0 {
            vstd::utf8::encode_utf8_first_scalar(args@[1]@);
            assert(charset.len() > 0);
            assert(charset.contains(charset[0]));
            assert(available_colors@.contains(charset[0]));
        }
        assert(drawn_from(encode_utf8(args@[3]@), available_colors@) <==> drawn_from(
            encode_utf8(args@[3]@),
            charset,
        ));
    }
    let solution = match parse_solution(args[2].as_str(), args[3].as_str(), &available_colors) {
        Ok(code) => code,
        Err(error) => {
            return Err(error);
        },
    };
    let solver_constructor = match parse_solver_name(args[4].as_str(), solver_constructors) {
        Ok(constructor) => constructor,
        Err(error) => {
            return Err(error);
        },
    };
    let solver = solver_constructor.construct(&available_colors, solution.len());
    proof {
        if solution@.len() > 0 {
            assert(available_colors@.contains(solution@[0]));
        }
    }
    Ok((available_colors, solution, solver))
}

/// How a game went.
pub struct Game {
    /// The guess that hit the secret, if one did.
    pub submission: Option<Code>,
    /// Every guess that was made, with its feedback, in the order of the
    /// game.
    pub guesses: Vec<Attempt>,
}

/// The attempt holds a guess of the secret's length with the feedback that
/// the secret gives on it.
pub open spec fn is_scored_against(attempt: Attempt, secret: Seq<Color>) -> bool {
    &&& attempt.guess().len() == secret.len()
    &&& is_feedback(attempt.feedback(), attempt.guess(), secret)
}

/// `after` is `before` with the first `n` attempts of `told` at its end.
pub open spec fn is_continued_by(
    before: Seq<Attempt>,
    after: Seq<Attempt>,
    told: Seq<Attempt>,
    n: int,
) -> bool {
    &&& after.len() == before.len() + n
    &&& forall|k: int| 0 <= k < before.len() ==> after[k] == before[k]
    &&& forall|k: int| 0 <= k < n ==> (#[trigger] after[before.len() + k])@ == told[k]@
}

/// Plays a game: asks the solver for candidates, scores each against
/// `solution` and tells the solver the score, until a candidate is the
/// solution, the solver has none to offer, or `max_attempt_count` guesses
/// were made. The solver is told every guess but the one that hit. With a
/// solver that is bound to offer candidates for this solution, the game
/// does not end before the solution is hit or the guesses are used up. A
/// solver that keeps what it is told never makes the same guess twice:
/// every wrong guess is ruled out by its own feedback.
pub fn solve<S: Solver>(solver: &mut S, max_attempt_count: usize, solution: &Code) -> (game: Game)
    requires
        old(solver).ready(),
        old(solver).length() == solution@.len(),
        2 * solution@.len() <= usize::MAX,
    ensures
        final(solver).ready(),
        final(solver).palette() == old(solver).palette(),
        final(solver).length() == old(solver).length(),
        final(solver).label() == old(solver).label(),
        final(solver).keeps_history() == old(solver).keeps_history(),
        final(solver).work_left() <= old(solver).work_left(),
        game.submission is None && game.guesses@.len() < max_attempt_count
            ==> final(solver).gave_up(old(solver).work_left()),
        old(solver).will_offer(solution@) ==> final(solver).will_offer(solution@) && (
        game.submission is None ==> game.guesses@.len() == max_attempt_count),
        old(solver).keeps_history() ==> forall|i: int, j: int|
            0 <= i < j < game.guesses@.len() ==> (#[trigger] game.guesses@[i]).guess() != (
            #[trigger] game.guesses@[j]).guess(),
        if old(solver).keeps_history() {
            is_continued_by(
                old(solver).history(),
                final(solver).history(),
                game.guesses@,
                if game.submission is Some {
                    game.guesses@.len() - 1
                } else {
                    game.guesses@.len() as int
                },
            )
        } else {
            final(solver).history() == old(solver).history()
        },
        game.guesses@.len() <= max_attempt_count,
        forall|k: int|
            0 <= k < game.guesses@.len() ==> is_scored_against(
                #[trigger] game.guesses@[k],
                solution@,
            ) && drawn_from(game.guesses@[k].guess(), old(solver).palette()),
        match game.submission {
            Some(code) => {
                &&& code@ == solution@
                &&& game.guesses@.len() > 0
                &&& game.guesses@.last().guess() == solution@
                &&& forall|k: int|
                    0 <= k < game.guesses@.len() - 1 ==> (#[trigger] game.guesses@[k]).guess()
                        != solution@
            },
            None => forall|k: int|
                0 <= k < game.guesses@.len() ==> (#[trigger] game.guesses@[k]).guess() != solution@,
        },
{
    let mut guesses: Vec<Attempt> = Vec::new();
    let mut attempt_number: usize = 0;
    while attempt_number < max_attempt_count
        invariant
            solver.ready(),
            solver.palette() == old(solver).palette(),
            solver.length() == old(solver).length(),
            solver.label() == old(solver).label(),
            solver.keeps_history() == old(solver).keeps_history(),
            solver.work_left() <= old(solver).work_left(),
            old(solver).will_offer(solution@) ==> solver.will_offer(solution@),
            old(solver).keeps_history() ==> forall|i: int, j: int|
                0 <= i < j < guesses@.len() ==> (#[trigger] guesses@[i]).guess() != (
                #[trigger] guesses@[j]).guess(),
            if old(solver).keeps_history() {
                is_continued_by(
                    old(solver).history(),
                    solver.history(),
                    guesses@,
                    guesses@.len() as int,
                )
            } else {
                solver.history() == old(solver).history()
            },
            solver.length() == solution@.len(),
            2 * solution@.len() <= usize::MAX,
            attempt_number <= max_attempt_count,
            guesses@.len() == attempt_number,
            forall|k: int|
                0 <= k < guesses@.len() ==> is_scored_against(#[trigger] guesses@[k], solution@)
                    && drawn_from(guesses@[k].guess(), old(solver).palette()) && guesses@[k].guess()
                    != solution@,
        decreases max_attempt_count - attempt_number,
    {
        match solver.generate_candidate() {
            Some(candidate) => {
                let score: Score = compute_score(&candidate, solution);
                let ghost made = guesses@;
                guesses.push(Attempt::new(candidate.clone(), score));
                proof {
                    lemma_all_black_iff_equal(candidate@, solution@);
                    if old(solver).keeps_history() {
                        let before = old(solver).history();
                        let told = solver.history();
                        assert forall|i: int| 0 <= i < made.len() implies (#[trigger] made[i]).guess()
                            != candidate@ by {
                            let kept = told[before.len() + i];
                            assert(kept@ == made[i]@);
                            assert(kept.admits(candidate@));
                            lemma_own_attempt(made[i].guess(), solution@, made[i].feedback());
                        }
                    }
                }
                if score.black == solution.len() {
                    return Game { submission: Some(candidate), guesses };
                }
                let ghost told = solver.history();
                solver.record_attempt(&candidate, score);
                proof {
                    if old(solver).keeps_history() {
                        let before = old(solver).history();
                        let after = solver.history();
                        assert(after.drop_last() == told);
                        assert forall|k: int| 0 <= k < before.len() implies after[k]
                            == before[k] by {
                            assert(after.drop_last()[k] == told[k]);
                        }
                        assert forall|k: int| 0 <= k < guesses@.len() implies (#[trigger] after[
                            before.len() + k])@ == guesses@[k]@ by {
                            if k < made.len() {
                                assert(after.drop_last()[before.len() + k] == told[before.len()
                                    + k]);
                                assert(guesses@[k] == made[k]);
                            } else {
                                assert(after[before.len() + k] == after.last());
                            }
                        }
                    }
                }
            },
            None => {
                return Game { submission: None, guesses };
            },
        }
        attempt_number += 1;
    }
    Game { submission: None, guesses }
}

} // verus!
