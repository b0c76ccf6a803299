//! Command-line tokens and the search parameters parsed from them.

use vstd::prelude::*;

verus! {

/// What a search is asked to do.
///
/// A value is built once, by [`Params::new`], and only read afterwards.
#[derive(Debug)]
pub struct Params {
    query: String,
    target: String,
    case_insensitive: bool,
    show_line_numbers: bool,
    invert_match: bool,
}

/// The mathematical content of a [`Params`].
pub struct ParamsView {
    /// The substring to look for.
    pub query: Seq<char>,
    /// The path of the file to search.
    pub target: Seq<char>,
    /// Fold both query and line to lower case before comparing.
    pub case_insensitive: bool,
    /// Prefix each selected line with its 1-based number.
    pub show_line_numbers: bool,
    /// Select the lines that do not contain the query.
    pub invert_match: bool,
}

impl View for Params {
    type V = ParamsView;

    closed spec fn view(&self) -> ParamsView {
        ParamsView {
            query: self.query@,
            target: self.target@,
            case_insensitive: self.case_insensitive,
            show_line_numbers: self.show_line_numbers,
            invert_match: self.invert_match,
        }
    }
}

/// Why a token list was rejected.
#[derive(Debug, Clone, Copy, PartialEq, Eq, Structural)]
pub enum ParseError {
    /// Once the flags are taken out, the tokens left are not exactly a query and a file name.
    InvalidArgumentCount,
}

impl ParseError {
    /// The text shown to the user for this error.
    pub fn message(&self) -> (text: &'static str)
        ensures
            text@ == "Invalid number of arguments."@,
    {
        "Invalid number of arguments."
    }
}

/// The token that asks for line numbers in the output: `/n`.
pub open spec fn line_number_flag() -> Seq<char> {
    seq!['/', 'n']
}

/// The token that inverts the match: `/v`.
pub open spec fn invert_flag() -> Seq<char> {
    seq!['/', 'v']
}

/// The token that makes the comparison ignore case: `/c`.
pub open spec fn ignore_case_flag() -> Seq<char> {
    seq!['/', 'c']
}

/// Whether `token` is one of the three flags.
pub open spec fn is_flag(token: Seq<char>) -> bool {
    token == line_number_flag() || token == invert_flag() || token == ignore_case_flag()
}

/// `tokens` with the first occurrence of `flag` taken out, if there is one.
pub open spec fn without_first(tokens: Seq<Seq<char>>, flag: Seq<char>) -> Seq<Seq<char>>
    decreases tokens.len(),
{
    if tokens.len() == 0 {
        tokens
    } else if tokens[0] == flag {
        tokens.drop_first()
    } else {
        seq![tokens[0]] + without_first(tokens.drop_first(), flag)
    }
}

/// If `flag` first occurs at `at`, taking it out removes exactly that element.
proof fn lemma_without_first_at(tokens: Seq<Seq<char>>, flag: Seq<char>, at: int)
    requires
        0 <= at < tokens.len(),
        tokens[at] == flag,
        forall|j: int| 0 <= j < at ==> tokens[j] != flag,
    ensures
        without_first(tokens, flag) == tokens.remove(at),
    decreases at,
{
    if at == 0 {
        assert(tokens.remove(0) =~= tokens.drop_first());
    } else {
        let rest = tokens.drop_first();
        lemma_without_first_at(rest, flag, at - 1);
        assert(tokens.remove(at) =~= seq![tokens[0]] + rest.remove(at - 1));
    }
}

/// If `flag` does not occur, nothing is taken out.
proof fn lemma_without_first_absent(tokens: Seq<Seq<char>>, flag: Seq<char>)
    requires
        !tokens.contains(flag),
    ensures
        without_first(tokens, flag) == tokens,
    decreases tokens.len(),
{
    if tokens.len() > 0 {
        let rest = tokens.drop_first();
        assert(tokens[0] != flag);
        assert forall|j: int| 0 <= j < rest.len() implies rest[j] != flag by {
            assert(rest[j] == tokens[j + 1]);
        }
        lemma_without_first_absent(rest, flag);
        assert(seq![tokens[0]] + rest =~= tokens);
    }
}

/// Looks for the first token equal to `flag`, removes it, and says whether there was one.
fn take_flag(args: &mut Vec<String>, flag: &str) -> (found: bool)
    ensures
        found == old(args).deep_view().contains(flag@),
        final(args).deep_view() == without_first(old(args).deep_view(), flag@),
{
    let wanted = flag.to_owned();
    let ghost tokens = args.deep_view();
    let mut i: usize = 0;
    while i < args.len()
        invariant
            i <= args.len(),
            wanted@ == flag@,
            *args == *old(args),
            tokens == args.deep_view(),
            forall|j: int| 0 <= j < i ==> tokens[j] != flag@,
        decreases args.len() - i,
    {
        if args[i] == wanted {
            proof {
                lemma_without_first_at(tokens, flag@, i as int);
            }
            args.remove(i);
            return true;
        }
        i += 1;
    }
    proof {
        lemma_without_first_absent(tokens, flag@);
    }
    false
}

/// The tokens left when one occurrence of each flag has been taken out, in the
/// order `/n`, `/v`, `/c`.
pub open spec fn positionals(tokens: Seq<Seq<char>>) -> Seq<Seq<char>> {
    without_first(
        without_first(without_first(tokens, line_number_flag()), invert_flag()),
        ignore_case_flag(),
    )
}

/// What a token list means: the parameters it stands for, or the reason it is rejected.
///
/// A flag is set when its token occurs anywhere among the tokens. The tokens that
/// are left must be exactly two, the query and then the file name; they are taken
/// verbatim. A second occurrence of a flag is left in place and counts as one of them.
pub open spec fn parse(tokens: Seq<Seq<char>>) -> Result<ParamsView, ParseError> {
    let rest = positionals(tokens);
    if rest.len() == 2 {
        Ok(
            ParamsView {
                query: rest[0],
                target: rest[1],
                case_insensitive: tokens.contains(ignore_case_flag()),
                show_line_numbers: tokens.contains(line_number_flag()),
                invert_match: tokens.contains(invert_flag()),
            },
        )
    } else {
        Err(ParseError::InvalidArgumentCount)
    }
}

/// Taking out a flag leaves every other token in place.
proof fn lemma_without_first_keeps_others(
    tokens: Seq<Seq<char>>,
    flag: Seq<char>,
    other: Seq<char>,
)
    requires
        other != flag,
    ensures
        without_first(tokens, flag).contains(other) == tokens.contains(other),
    decreases tokens.len(),
{
    let out = without_first(tokens, flag);
    if tokens.len() > 0 {
        let rest = tokens.drop_first();
        lemma_without_first_keeps_others(rest, flag, other);
        if tokens.contains(other) {
            let i = choose|i: int| 0 <= i < tokens.len() && tokens[i] == other;
            if i == 0 {
                assert(out[0] == other);
            } else {
                assert(rest[i - 1] == other);
                let k = choose|k: int|
                    0 <= k < without_first(rest, flag).len() && without_first(rest, flag)[k]
                        == other;
                if tokens[0] != flag {
                    assert(out[k + 1] == other);
                }
            }
        }
        if out.contains(other) {
            let k = choose|k: int| 0 <= k < out.len() && out[k] == other;
            if tokens[0] == flag {
                assert(tokens[k + 1] == other);
            } else if k == 0 {
                assert(tokens[0] == other);
            } else {
                assert(without_first(rest, flag)[k - 1] == other);
                let i = choose|i: int| 0 <= i < rest.len() && rest[i] == other;
                assert(tokens[i + 1] == other);
            }
        }
    }
}

/// The tokens at `i` and `j` are no flags, and all the others are flags, each a different one.
pub open spec fn flags_around(tokens: Seq<Seq<char>>, i: int, j: int) -> bool {
    &&& 0 <= i < j < tokens.len()
    &&& !is_flag(tokens[i])
    &&& !is_flag(tokens[j])
    &&& forall|k: int| 0 <= k < tokens.len() && k != i && k != j ==> is_flag(#[trigger] tokens[k])
    &&& forall|a: int, b: int|
        0 <= a < b < tokens.len() && a != i && a != j && b != i && b != j ==> #[trigger] tokens[a]
            != #[trigger] tokens[b]
}

/// Taking one flag out of tokens that satisfy [`flags_around`] leaves tokens that
/// satisfy it too, around the same two tokens, and without that flag.
proof fn lemma_take_flag_around(tokens: Seq<Seq<char>>, flag: Seq<char>, i: int, j: int) -> (at: (
    int,
    int,
))
    requires
        flags_around(tokens, i, j),
        is_flag(flag),
    ensures
        flags_around(without_first(tokens, flag), at.0, at.1),
        without_first(tokens, flag)[at.0] == tokens[i],
        without_first(tokens, flag)[at.1] == tokens[j],
        !without_first(tokens, flag).contains(flag),
        forall|other: Seq<char>|
            !tokens.contains(other) ==> !(#[trigger] without_first(tokens, flag).contains(other)),
{
    if tokens.contains(flag) {
        let k = choose|k: int| 0 <= k < tokens.len() && tokens[k] == flag;
        assert forall|m: int| 0 <= m < k implies tokens[m] != flag by {
            assert(m != i && m != j ==> tokens[m] != tokens[k]);
        }
        lemma_without_first_at(tokens, flag, k);
        let out = tokens.remove(k);
        let i2 = if k < i { i - 1 } else { i };
        let j2 = if k < j { j - 1 } else { j };
        assert forall|m: int| 0 <= m < out.len() implies out[m] == tokens[if m < k { m } else { m + 1 }] by {}
        assert forall|m: int| 0 <= m < out.len() implies out[m] != flag by {
            let src = if m < k { m } else { m + 1 };
            assert(src != i && src != j ==> tokens[src] != tokens[k]);
        }
        assert forall|other: Seq<char>| !tokens.contains(other) implies !out.contains(other) by {
            if out.contains(other) {
                let m = choose|m: int| 0 <= m < out.len() && out[m] == other;
                assert(tokens[if m < k { m } else { m + 1 }] == other);
            }
        }
        (i2, j2)
    } else {
        lemma_without_first_absent(tokens, flag);
        (i, j)
    }
}

/// Two tokens of which neither is a flag are accepted as they stand: the first
/// is the query, the second the file name, and no flag is set.
pub proof fn parse_two_plain_tokens(tokens: Seq<Seq<char>>)
    requires
        tokens.len() == 2,
        !is_flag(tokens[0]),
        !is_flag(tokens[1]),
    ensures
        parse(tokens) == Ok::<ParamsView, ParseError>(
            ParamsView {
                query: tokens[0],
                target: tokens[1],
                case_insensitive: false,
                show_line_numbers: false,
                invert_match: false,
            },
        ),
{
    assert forall|flag: Seq<char>| is_flag(flag) implies !tokens.contains(flag) by {
        if tokens.contains(flag) {
            let k = choose|k: int| 0 <= k < tokens.len() && tokens[k] == flag;
            assert(k == 0 || k == 1);
        }
    }
    lemma_without_first_absent(tokens, line_number_flag());
    lemma_without_first_absent(tokens, invert_flag());
    lemma_without_first_absent(tokens, ignore_case_flag());
}

/// Flags may stand anywhere around the query and the file name: when the tokens
/// at `i` and `j` are no flags and every other token is a flag that occurs only
/// once, the tokens are accepted, the one at `i` is the query, the one at `j` the
/// file name, and exactly the flags that occur are set.
pub proof fn parse_with_flags_anywhere(tokens: Seq<Seq<char>>, i: int, j: int)
    requires
        flags_around(tokens, i, j),
    ensures
        parse(tokens) == Ok::<ParamsView, ParseError>(
            ParamsView {
                query: tokens[i],
                target: tokens[j],
                case_insensitive: tokens.contains(ignore_case_flag()),
                show_line_numbers: tokens.contains(line_number_flag()),
                invert_match: tokens.contains(invert_flag()),
            },
        ),
{
    let a = without_first(tokens, line_number_flag());
    let b = without_first(a, invert_flag());
    let c = without_first(b, ignore_case_flag());
    let at_a = lemma_take_flag_around(tokens, line_number_flag(), i, j);
    let at_b = lemma_take_flag_around(a, invert_flag(), at_a.0, at_a.1);
    let at_c = lemma_take_flag_around(b, ignore_case_flag(), at_b.0, at_b.1);
    assert(!c.contains(line_number_flag()) && !c.contains(invert_flag()) && !c.contains(
        ignore_case_flag(),
    ));
    if c.len() != 2 {
        let k: int = if at_c.0 != 0 {
            0
        } else if at_c.1 != 1 {
            1
        } else {
            2
        };
        assert(is_flag(c[k]));
        assert(c.contains(c[k]));
    }
}

/// Tokens that do not leave exactly two when one occurrence of each flag is
/// taken out are rejected, whatever else they hold.
pub proof fn parse_rejects_other_counts(tokens: Seq<Seq<char>>)
    requires
        positionals(tokens).len() != 2,
    ensures
        parse(tokens) == Err::<ParamsView, ParseError>(ParseError::InvalidArgumentCount),
{
}

impl Params {
    /// The substring to look for.
    pub fn query(&self) -> (query: &str)
        ensures
            query@ == self@.query,
    {
        self.query.as_str()
    }

    /// The path of the file to search.
    pub fn target(&self) -> (target: &str)
        ensures
            target@ == self@.target,
    {
        self.target.as_str()
    }

    /// Whether query and line are folded to lower case before they are compared.
    pub fn is_case_insensitive(&self) -> (set: bool)
        ensures
            set == self@.case_insensitive,
    {
        self.case_insensitive
    }

    /// Whether each selected line is shown with its number.
    pub fn shows_line_numbers(&self) -> (set: bool)
        ensures
            set == self@.show_line_numbers,
    {
        self.show_line_numbers
    }

    /// Whether the lines that do not contain the query are the ones selected.
    pub fn is_inverted(&self) -> (set: bool)
        ensures
            set == self@.invert_match,
    {
        self.invert_match
    }

    /// Reads the parameters of a search from command-line tokens (the program's
    /// name not among them).
    ///
    /// The first `/n`, the first `/v` and the first `/c` are taken out and set
    /// their flags; exactly two tokens must be left, the query and the file name.
    pub fn new(args: Vec<String>) -> (parsed: Result<Params, ParseError>)
        ensures
            match parse(args.deep_view()) {
                Ok(v) => parsed is Ok && parsed->Ok_0@ == v,
                Err(e) => parsed == Err::<Params, ParseError>(e),
            },
    {
        let ghost tokens = args.deep_view();
        let mut args = args;
        proof {
            reveal_strlit("/n");
            reveal_strlit("/v");
            reveal_strlit("/c");
            assert("/n"@ =~= line_number_flag());
            assert("/v"@ =~= invert_flag());
            assert("/c"@ =~= ignore_case_flag());
            lemma_without_first_keeps_others(tokens, line_number_flag(), invert_flag());
            lemma_without_first_keeps_others(tokens, line_number_flag(), ignore_case_flag());
            lemma_without_first_keeps_others(
                without_first(tokens, line_number_flag()),
                invert_flag(),
                ignore_case_flag(),
            );
        }
        let show_line_numbers = take_flag(&mut args, "/n");
        let invert_match = take_flag(&mut args, "/v");
        let case_insensitive = take_flag(&mut args, "/c");

        if args.len() != 2 {
            return Err(ParseError::InvalidArgumentCount);
        }
        let query = args[0].clone();
        let target = args[1].clone();

        Ok(Params { query, target, case_insensitive, show_line_numbers, invert_match })
    }
}

} // verus!
