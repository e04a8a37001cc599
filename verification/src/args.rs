//! Command-line arguments: which command a run of the tool performs.
//!
//! The arguments are split into options and values by `lexopt`; this module
//! decides what each of them means.

use vstd::prelude::*;

use crate::config::string_eq_str;
use crate::search::{search_of, Search, SearchRunnerOpts, SearchView};
use crate::text::strings_view;

verus! {

/// `lexopt::Parser`, whose contents are not looked into.
#[verifier::external_type_specification]
#[verifier::external_body]
pub struct ExParser(lexopt::Parser);

/// `lexopt::Error`, carried through to the caller as it is.
#[verifier::external_type_specification]
#[verifier::external_body]
pub struct ExLexoptError(lexopt::Error);

/// How much of the command line `lexopt::Parser` has still to hand out.
pub uninterp spec fn parser_unread(p: lexopt::Parser) -> nat;

/// The command line that a `lexopt::Parser` was made from, the program's
/// name first.
pub uninterp spec fn parser_args(p: lexopt::Parser) -> Seq<Seq<char>>;

/// The calls made on a `lexopt::Parser` since it was made, oldest first.
pub uninterp spec fn parser_calls(p: lexopt::Parser) -> Seq<ParserCall>;

/// What `lexopt::Parser::next` hands out on a parser made from `args` after
/// the calls `calls`: `None` for an error, `Some(None)` at the end of the
/// command line.
pub uninterp spec fn lexopt_next_of(args: Seq<Seq<char>>, calls: Seq<ParserCall>) -> Option<Option<TokenView>>;

/// What `lexopt::Parser::value` hands out on a parser made from `args` after
/// the calls `calls`: `None` for an error.
pub uninterp spec fn lexopt_value_of(args: Seq<Seq<char>>, calls: Seq<ParserCall>) -> Option<Seq<char>>;

/// A call made on a `lexopt::Parser`.
#[derive(Debug, Clone, Copy, PartialEq, Eq, Structural)]
pub enum ParserCall {
    Next,
    Value,
}

/// One argument as `lexopt` splits it: a short option, a long option (without
/// its dashes), or a value.
#[derive(Debug)]
pub enum ArgToken {
    Short(char),
    Long(String),
    Value(String),
}

/// The mathematical value of an [`ArgToken`].
pub enum TokenView {
    Short(char),
    Long(Seq<char>),
    Value(Seq<char>),
}

impl View for ArgToken {
    type V = TokenView;

    open spec fn view(&self) -> TokenView {
        match self {
            ArgToken::Short(c) => TokenView::Short(*c),
            ArgToken::Long(s) => TokenView::Long(s@),
            ArgToken::Value(s) => TokenView::Value(s@),
        }
    }
}

/// What a call of `next` handed out, with the error left out.
pub open spec fn next_view(res: Result<Option<ArgToken>, lexopt::Error>) -> Option<Option<TokenView>> {
    match res {
        Ok(Some(t)) => Some(Some(t@)),
        Ok(None) => Some(None),
        Err(_) => None,
    }
}

/// What a call of `value` handed out, with the error left out.
pub open spec fn value_view(res: Result<String, lexopt::Error>) -> Option<Seq<char>> {
    match res {
        Ok(v) => Some(v@),
        Err(_) => None,
    }
}

/// A decimal digit.
pub open spec fn is_ascii_digit(c: char) -> bool {
    '0' <= c && c <= '9'
}

/// The digits of a number written with an optional leading `+`.
pub open spec fn unsigned_digits(s: Seq<char>) -> Seq<char> {
    if s.len() > 0 && s[0] == '+' {
        s.drop_first()
    } else {
        s
    }
}

/// The number that the decimal digits `d` write.
pub open spec fn decimal_value(d: Seq<char>) -> nat
    decreases d.len(),
{
    if d.len() == 0 {
        0
    } else {
        decimal_value(d.drop_last()) * 10 + (((d.last() as int) - ('0' as int)) as nat)
    }
}

/// `s` reads as a `usize`: an optional `+`, then at least one decimal digit
/// and nothing else, for a number that fits.
pub open spec fn parses_usize(s: Seq<char>) -> bool {
    let d = unsigned_digits(s);
    &&& d.len() > 0
    &&& forall|i: int| 0 <= i < d.len() ==> is_ascii_digit(#[trigger] d[i])
    &&& decimal_value(d) <= usize::MAX
}

/// Calls `lexopt::Parser::from_iter`: a parser over the given arguments, of
/// which the first is the program's name. The contract claims that the
/// parser holds these arguments and has had no call made on it.
#[verifier::external_body]
fn parser_from_args(args: Vec<String>) -> (res: lexopt::Parser)
    ensures
        parser_args(res) == strings_view(args@),
        parser_calls(res) == Seq::<ParserCall>::empty(),
{
    lexopt::Parser::from_iter(args)
}

/// Calls `lexopt::Parser::next`: the next option or value, none at the end
/// of the command line, or an error. The contract claims that what comes
/// back is a function of the command line and of the calls made before
/// (the parser is a deterministic state machine over them), that the call is
/// recorded, and that an argument handed out is taken off what the parser
/// has still to hand out (in the source every such return consumes input).
/// Values are passed on as the text of the arguments they come from.
#[verifier::external_body]
fn parser_next(parser: &mut lexopt::Parser) -> (res: Result<Option<ArgToken>, lexopt::Error>)
    ensures
        parser_args(*final(parser)) == parser_args(*old(parser)),
        parser_calls(*final(parser)) == parser_calls(*old(parser)).push(ParserCall::Next),
        next_view(res) == lexopt_next_of(parser_args(*old(parser)), parser_calls(*old(parser))),
        res matches Ok(Some(_)) ==> parser_unread(*final(parser)) < parser_unread(*old(parser)),
{
    match parser.next() {
        Ok(Some(lexopt::Arg::Short(c))) => Ok(Some(ArgToken::Short(c))),
        Ok(Some(lexopt::Arg::Long(s))) => Ok(Some(ArgToken::Long(s.to_string()))),
        Ok(Some(lexopt::Arg::Value(v))) => Ok(Some(ArgToken::Value(v.to_string_lossy().into_owned()))),
        Ok(None) => Ok(None),
        Err(e) => Err(e),
    }
}

/// Calls `lexopt::Parser::value`: the value of the option just seen, or an
/// error at the end of the command line. The contract claims, as for
/// `next`, that what comes back is a function of the command line and of the
/// calls made before, that the call is recorded, and that the parser does
/// not hand out more afterwards.
#[verifier::external_body]
fn parser_value(parser: &mut lexopt::Parser) -> (res: Result<String, lexopt::Error>)
    ensures
        parser_args(*final(parser)) == parser_args(*old(parser)),
        parser_calls(*final(parser)) == parser_calls(*old(parser)).push(ParserCall::Value),
        value_view(res) == lexopt_value_of(parser_args(*old(parser)), parser_calls(*old(parser))),
        parser_unread(*final(parser)) <= parser_unread(*old(parser)),
{
    match parser.value() {
        Ok(v) => Ok(v.to_string_lossy().into_owned()),
        Err(e) => Err(e),
    }
}

/// Calls `lexopt::ValueExt::parse` for a `usize`, which decodes the value
/// and hands it to `usize::from_str`. The contract claims what the
/// documentation of `from_str` says: an optional `+` followed by decimal
/// digits only, for a number that fits, reads as that number; any other
/// text is refused.
#[verifier::external_body]
fn parse_usize_value(v: &String) -> (res: Result<usize, lexopt::Error>)
    ensures
        res is Ok <==> parses_usize(v@),
        res matches Ok(n) ==> n == decimal_value(unsigned_digits(v@)),
{
    lexopt::ValueExt::parse::<usize>(&std::path::PathBuf::from(v.as_str()).into_os_string())
}

/// Calls `lexopt::Arg::unexpected` on the argument: the error that reports
/// it as unexpected. Nothing is claimed of the error.
#[verifier::external_body]
fn arg_unexpected(token: ArgToken) -> (res: lexopt::Error) {
    match token {
        ArgToken::Short(c) => lexopt::Arg::Short(c).unexpected(),
        ArgToken::Long(s) => lexopt::Arg::Long(&s).unexpected(),
        ArgToken::Value(v) => lexopt::Arg::Value(v.into()).unexpected(),
    }
}

/// The command to be performed on a single execution of the tool.
#[derive(Debug)]
pub enum Command {
    /// Prints the help menu.
    Help,
    /// Performs a search and navigates to what it finds.
    Search(Search, SearchRunnerOpts),
}

/// What an argument asks for.
#[derive(Debug, Clone, Copy, PartialEq, Eq, Structural)]
pub enum ArgKind {
    /// A search term.
    Value,
    /// `-d` or `--distance`: the maximum distance follows.
    Distance,
    /// `-e` or `--exhaustive`: do not respect ignored names.
    Exhaustive,
    /// `--help`.
    Help,
    /// Anything else.
    Unexpected,
}

/// What the argument `t` asks for.
pub open spec fn kind_of(t: TokenView) -> ArgKind {
    match t {
        TokenView::Value(_) => ArgKind::Value,
        TokenView::Short(c) => if c == 'd' {
            ArgKind::Distance
        } else if c == 'e' {
            ArgKind::Exhaustive
        } else {
            ArgKind::Unexpected
        },
        TokenView::Long(s) => if s == "distance"@ {
            ArgKind::Distance
        } else if s == "exhaustive"@ {
            ArgKind::Exhaustive
        } else if s == "help"@ {
            ArgKind::Help
        } else {
            ArgKind::Unexpected
        },
    }
}

/// What the arguments read so far ask for.
pub struct ArgsState {
    pub values: Seq<Seq<char>>,
    pub max_dist: usize,
    pub use_ignores: bool,
}

/// Before any argument: no search term, distance 5, ignored names respected.
pub open spec fn initial_args() -> ArgsState {
    ArgsState { values: Seq::empty(), max_dist: 5, use_ignores: true }
}

/// The effect of an argument: a value is a search term, `-e` turns the
/// ignored names off; nothing else changes what was read.
pub open spec fn token_effect(s: ArgsState, t: TokenView) -> ArgsState {
    match kind_of(t) {
        ArgKind::Value => ArgsState { values: s.values.push(t->Value_0), ..s },
        ArgKind::Exhaustive => ArgsState { use_ignores: false, ..s },
        _ => s,
    }
}

/// How a reading of the command line ends.
pub enum ParseOutcome {
    /// The help menu.
    Help,
    /// A search, and whether it respects ignored names.
    Search(SearchView, bool),
    /// An error: the argument is an option that the tool does not know.
    Unexpected(TokenView),
    /// An error: a distance option came last, without its value.
    MissingDistance,
    /// An error: the value given for the distance does not read as a `usize`.
    InvalidDistance(Seq<char>),
    /// An error: `lexopt` refused the command line (such as a value given to
    /// an option that takes none, `--exhaustive=yes`).
    Refused,
}

/// How reading the command line `args` ends, after the calls `calls` on the
/// parser and with `acc` read so far; `None` where `fuel` runs out first.
/// Each argument is asked for in turn: the end of the command line gives the
/// search that was read, `--help` the help menu, an unknown option an error,
/// and a distance option takes the value after it, which must read as a
/// `usize`.
pub open spec fn parse_run(args: Seq<Seq<char>>, calls: Seq<ParserCall>, acc: ArgsState, fuel: nat) -> Option<ParseOutcome>
    decreases fuel,
{
    if fuel == 0 {
        None
    } else {
        match lexopt_next_of(args, calls) {
            None => Some(ParseOutcome::Refused),
            Some(None) => Some(ParseOutcome::Search(search_of(acc.values, acc.max_dist), acc.use_ignores)),
            Some(Some(t)) => {
                let after = calls.push(ParserCall::Next);
                match kind_of(t) {
                    ArgKind::Help => Some(ParseOutcome::Help),
                    ArgKind::Unexpected => Some(ParseOutcome::Unexpected(t)),
                    ArgKind::Distance => match lexopt_value_of(args, after) {
                        None => Some(ParseOutcome::MissingDistance),
                        Some(v) => if parses_usize(v) {
                            parse_run(
                                args,
                                after.push(ParserCall::Value),
                                ArgsState { max_dist: decimal_value(unsigned_digits(v)) as usize, ..acc },
                                (fuel - 1) as nat,
                            )
                        } else {
                            Some(ParseOutcome::InvalidDistance(v))
                        },
                    },
                    _ => parse_run(args, after, token_effect(acc, t), (fuel - 1) as nat),
                }
            },
        }
    }
}

/// Once a reading has ended, more fuel ends it the same way: the outcome of
/// reading a command line does not depend on the fuel it is given.
pub proof fn lemma_parse_run_settles(args: Seq<Seq<char>>, calls: Seq<ParserCall>, acc: ArgsState, f1: nat, f2: nat)
    requires
        f1 <= f2,
        parse_run(args, calls, acc, f1) is Some,
    ensures
        parse_run(args, calls, acc, f2) == parse_run(args, calls, acc, f1),
    decreases f1,
{
    match lexopt_next_of(args, calls) {
        Some(Some(t)) => {
            let after = calls.push(ParserCall::Next);
            match kind_of(t) {
                ArgKind::Distance => match lexopt_value_of(args, after) {
                    Some(v) => if parses_usize(v) {
                        lemma_parse_run_settles(
                            args,
                            after.push(ParserCall::Value),
                            ArgsState { max_dist: decimal_value(unsigned_digits(v)) as usize, ..acc },
                            (f1 - 1) as nat,
                            (f2 - 1) as nat,
                        );
                    },
                    None => {},
                },
                ArgKind::Value | ArgKind::Exhaustive => {
                    lemma_parse_run_settles(args, after, token_effect(acc, t), (f1 - 1) as nat, (f2 - 1) as nat);
                },
                _ => {},
            }
        },
        _ => {},
    }
}

/// The first `i` calls of a reading that only asks for the next argument.
pub open spec fn nexts(i: nat) -> Seq<ParserCall> {
    Seq::new(i, |_k: int| ParserCall::Next)
}

proof fn lemma_values_run(args: Seq<Seq<char>>, vals: Seq<Seq<char>>, i: nat)
    requires
        i <= vals.len(),
        forall|k: nat| k < vals.len() ==> #[trigger] lexopt_next_of(args, nexts(k)) == Some(Some(TokenView::Value(vals[k as int]))),
        lexopt_next_of(args, nexts(vals.len())) == Some(None::<TokenView>),
    ensures
        parse_run(args, nexts(i), ArgsState { values: vals.take(i as int), max_dist: 5, use_ignores: true }, (vals.len() - i + 1) as nat)
            == Some(ParseOutcome::Search(search_of(vals, 5), true)),
    decreases vals.len() - i,
{
    if i < vals.len() {
        lemma_values_run(args, vals, i + 1);
        assert(nexts(i).push(ParserCall::Next) =~= nexts(i + 1));
        assert(vals.take(i as int).push(vals[i as int]) =~= vals.take((i + 1) as int));
        assert(lexopt_next_of(args, nexts(i)) == Some(Some(TokenView::Value(vals[i as int]))));
    } else {
        assert(vals.take(i as int) =~= vals);
    }
}

/// The search terms keep their command-line order: where `lexopt` hands out
/// the values `vals` one after the other and then reaches the end of the
/// command line, the reading gives the search for exactly these terms, in
/// this order, within distance 5 and respecting ignored names.
pub proof fn law_terms_in_command_line_order(args: Seq<Seq<char>>, vals: Seq<Seq<char>>)
    requires
        forall|k: nat| k < vals.len() ==> #[trigger] lexopt_next_of(args, nexts(k)) == Some(Some(TokenView::Value(vals[k as int]))),
        lexopt_next_of(args, nexts(vals.len())) == Some(None::<TokenView>),
    ensures
        parse_run(args, Seq::empty(), initial_args(), vals.len() + 1) == Some(ParseOutcome::Search(search_of(vals, 5), true)),
{
    lemma_values_run(args, vals, 0);
    assert(nexts(0) =~= Seq::<ParserCall>::empty());
    assert(vals.take(0) =~= Seq::<Seq<char>>::empty());
    assert(initial_args() == ArgsState { values: vals.take(0), max_dist: 5, use_ignores: true });
}

/// Reading a value adds it after the terms read so far, and reading `-e`
/// turns the ignored names off; neither changes anything else.
pub proof fn law_token_effect(s: ArgsState, v: Seq<char>)
    ensures
        token_effect(s, TokenView::Value(v)).values == s.values + seq![v],
        token_effect(s, TokenView::Value(v)).max_dist == s.max_dist,
        token_effect(s, TokenView::Value(v)).use_ignores == s.use_ignores,
        token_effect(s, TokenView::Short('e')) == (ArgsState { use_ignores: false, ..s }),
{
    assert(s.values.push(v) =~= s.values + seq![v]);
}

/// `--help` as the first argument asks for the help menu, whatever follows.
pub proof fn law_help_first(args: Seq<Seq<char>>, fuel: nat)
    requires
        fuel > 0,
        lexopt_next_of(args, Seq::empty()) == Some(Some(TokenView::Long("help"@))),
    ensures
        parse_run(args, Seq::empty(), initial_args(), fuel) == Some(ParseOutcome::Help),
{
    reveal_strlit("help");
    reveal_strlit("distance");
    reveal_strlit("exhaustive");
    assert("help"@.len() == 4 && "distance"@.len() == 8 && "exhaustive"@.len() == 10);
}

/// `-d N` alone sets the maximum distance to the number that `N` writes
/// (and a value that does not read as a `usize` is refused), leaving no
/// search terms and the ignored names respected.
pub proof fn law_distance_option(args: Seq<Seq<char>>, v: Seq<char>)
    requires
        lexopt_next_of(args, Seq::empty()) == Some(Some(TokenView::Short('d'))),
        lexopt_value_of(args, seq![ParserCall::Next]) == Some(v),
        lexopt_next_of(args, seq![ParserCall::Next, ParserCall::Value]) == Some(None::<TokenView>),
    ensures
        parses_usize(v) ==> parse_run(args, Seq::empty(), initial_args(), 2) == Some(
            ParseOutcome::Search(search_of(Seq::empty(), decimal_value(unsigned_digits(v)) as usize), true),
        ),
        !parses_usize(v) ==> parse_run(args, Seq::empty(), initial_args(), 2) == Some(ParseOutcome::InvalidDistance(v)),
{
    assert(Seq::<ParserCall>::empty().push(ParserCall::Next) =~= seq![ParserCall::Next]);
    assert(seq![ParserCall::Next].push(ParserCall::Value) =~= seq![ParserCall::Next, ParserCall::Value]);
    if parses_usize(v) {
        let acc = ArgsState { max_dist: decimal_value(unsigned_digits(v)) as usize, ..initial_args() };
        assert(parse_run(args, seq![ParserCall::Next, ParserCall::Value], acc, 1) == Some(
            ParseOutcome::Search(search_of(Seq::empty(), decimal_value(unsigned_digits(v)) as usize), true),
        ));
    }
}

/// The result `res` is the one that the outcome `o` calls for: the help
/// menu, the search, or an error (an error of `lexopt`, which carries no
/// value that can be looked into here).
pub open spec fn result_fits(res: Result<Command, lexopt::Error>, o: ParseOutcome) -> bool {
    match o {
        ParseOutcome::Help => res matches Ok(Command::Help),
        ParseOutcome::Search(sv, b) => res matches Ok(Command::Search(s, opts)) && s@ == sv && opts.use_ignores == b,
        _ => res is Err,
    }
}

/// Reading the command line `args` with `fuel` ends, in the outcome that
/// `res` stands for.
pub open spec fn parse_gives(args: Seq<Seq<char>>, fuel: nat, res: Result<Command, lexopt::Error>) -> bool {
    &&& parse_run(args, Seq::empty(), initial_args(), fuel) is Some
    &&& result_fits(res, parse_run(args, Seq::empty(), initial_args(), fuel)->0)
}

/// The arguments read so far.
pub struct ArgsAccum {
    pub values: Vec<String>,
    pub max_dist: usize,
    pub use_ignores: bool,
}

impl View for ArgsAccum {
    type V = ArgsState;

    open spec fn view(&self) -> ArgsState {
        ArgsState { values: strings_view(self.values@), max_dist: self.max_dist, use_ignores: self.use_ignores }
    }
}

/// What the argument asks for.
pub fn classify(token: &ArgToken) -> (res: ArgKind)
    ensures
        res == kind_of(token@),
{
    match token {
        ArgToken::Value(_) => ArgKind::Value,
        ArgToken::Short(c) => {
            if *c == 'd' {
                ArgKind::Distance
            } else if *c == 'e' {
                ArgKind::Exhaustive
            } else {
                ArgKind::Unexpected
            }
        },
        ArgToken::Long(s) => {
            if string_eq_str(s, "distance") {
                ArgKind::Distance
            } else if string_eq_str(s, "exhaustive") {
                ArgKind::Exhaustive
            } else if string_eq_str(s, "help") {
                ArgKind::Help
            } else {
                ArgKind::Unexpected
            }
        },
    }
}

impl ArgsAccum {
    /// The state before any argument.
    pub fn new() -> (res: Self)
        ensures
            res@ == initial_args(),
    {
        let res = ArgsAccum { values: Vec::new(), max_dist: 5, use_ignores: true };
        assert(res@.values =~= Seq::<Seq<char>>::empty());
        res
    }

    /// Takes in an argument; returns what it asks for.
    pub fn take_token(&mut self, token: &ArgToken) -> (res: ArgKind)
        ensures
            res == kind_of(token@),
            final(self)@ == token_effect(old(self)@, token@),
    {
        let kind = classify(token);
        match kind {
            ArgKind::Value => {
                match token {
                    ArgToken::Value(v) => {
                        let ghost before = self.values@;
                        self.values.push(v.clone());
                        assert(strings_view(self.values@) =~= strings_view(before).push(v@));
                    },
                    _ => {},
                }
            },
            ArgKind::Exhaustive => {
                self.use_ignores = false;
            },
            _ => {},
        }
        kind
    }

    /// Takes in the maximum distance.
    pub fn take_distance(&mut self, d: usize)
        ensures
            final(self)@ == (ArgsState { max_dist: d, ..old(self)@ }),
    {
        self.max_dist = d;
    }

    /// The search that the arguments ask for.
    pub fn finish(self) -> (res: Command)
        ensures
            res matches Command::Search(s, opts) && s@ == search_of(self@.values, self@.max_dist)
                && opts.use_ignores == self@.use_ignores,
    {
        let search = Search::new(self.values, self.max_dist);
        Command::Search(search, SearchRunnerOpts { use_ignores: self.use_ignores })
    }
}

/// Reads the command line (the program's name first): `--help` asks for
/// the help menu; otherwise the values are the search terms, `-d N` (or
/// `--distance N`) sets the maximum distance (5 by default, the last one
/// given wins) and `-e` (or `--exhaustive`) stops the search from
/// respecting ignored names. An unknown option, a missing or non-numeric
/// distance, or a command line that `lexopt` refuses is an error. The result
/// is the one that the outcome of [`parse_run`] on the command line calls
/// for (with [`lemma_parse_run_settles`], that outcome is unique).
pub fn parse_args(args: Vec<String>) -> (res: Result<Command, lexopt::Error>)
    ensures
        exists|fuel: nat| #[trigger] parse_gives(strings_view(args@), fuel, res),
{
    let ghost all = strings_view(args@);
    let mut parser = parser_from_args(args);
    let mut acc = ArgsAccum::new();
    let ghost mut calls: Seq<ParserCall> = Seq::empty();
    let ghost mut steps: nat = 0;
    loop
        invariant
            all == strings_view(args@),
            parser_args(parser) == all,
            parser_calls(parser) == calls,
            forall|f: nat| #[trigger] parse_run(all, calls, acc@, f) == parse_run(all, Seq::empty(), initial_args(), f + steps),
        decreases parser_unread(parser),
    {
        let ghost calls0 = calls;
        let ghost acc0 = acc@;
        let next = parser_next(&mut parser);
        proof {
            calls = calls.push(ParserCall::Next);
        }
        match next {
            Err(e) => {
                let res: Result<Command, lexopt::Error> = Err(e);
                proof {
                    assert(parse_run(all, calls0, acc0, 1) is Some && result_fits(res, parse_run(all, calls0, acc0, 1)->0));
                    assert(parse_gives(all, (1 + steps) as nat, res));
                }
                return res;
            },
            Ok(None) => {
                let command = acc.finish();
                let res: Result<Command, lexopt::Error> = Ok(command);
                proof {
                    assert(parse_run(all, calls0, acc0, 1) is Some && result_fits(res, parse_run(all, calls0, acc0, 1)->0));
                    assert(parse_gives(all, (1 + steps) as nat, res));
                }
                return res;
            },
            Ok(Some(token)) => {
                let kind = acc.take_token(&token);
                match kind {
                    ArgKind::Value | ArgKind::Exhaustive => {
                        proof {
                            assert forall|f: nat| #[trigger] parse_run(all, calls, acc@, f) == parse_run(all, Seq::empty(), initial_args(), f + (steps + 1)) by {
                                assert(parse_run(all, calls0, acc0, f + 1) == parse_run(all, calls, acc@, f));
                                assert(f + 1 + steps == f + (steps + 1));
                            }
                            steps = steps + 1;
                        }
                    },
                    ArgKind::Distance => {
                        let value = parser_value(&mut parser);
                        let ghost after = calls;
                        proof {
                            calls = calls.push(ParserCall::Value);
                        }
                        match value {
                            Ok(v) => {
                                match parse_usize_value(&v) {
                                    Ok(d) => {
                                        acc.take_distance(d);
                                        proof {
                                            assert forall|f: nat| #[trigger] parse_run(all, calls, acc@, f) == parse_run(all, Seq::empty(), initial_args(), f + (steps + 1)) by {
                                                assert(parse_run(all, calls0, acc0, f + 1) == parse_run(all, calls, acc@, f));
                                                assert(f + 1 + steps == f + (steps + 1));
                                            }
                                            steps = steps + 1;
                                        }
                                    },
                                    Err(e) => {
                                        let res: Result<Command, lexopt::Error> = Err(e);
                                        proof {
                                            assert(parse_run(all, calls0, acc0, 1) is Some && result_fits(res, parse_run(all, calls0, acc0, 1)->0));
                                            assert(parse_gives(all, (1 + steps) as nat, res));
                                        }
                                        return res;
                                    },
                                }
                            },
                            Err(e) => {
                                let res: Result<Command, lexopt::Error> = Err(e);
                                proof {
                                    assert(parse_run(all, calls0, acc0, 1) is Some && result_fits(res, parse_run(all, calls0, acc0, 1)->0));
                                    assert(parse_gives(all, (1 + steps) as nat, res));
                                }
                                return res;
                            },
                        }
                    },
                    ArgKind::Help => {
                        let res: Result<Command, lexopt::Error> = Ok(Command::Help);
                        proof {
                            assert(parse_run(all, calls0, acc0, 1) is Some && result_fits(res, parse_run(all, calls0, acc0, 1)->0));
                            assert(parse_gives(all, (1 + steps) as nat, res));
                        }
                        return res;
                    },
                    ArgKind::Unexpected => {
                        let res: Result<Command, lexopt::Error> = Err(arg_unexpected(token));
                        proof {
                            assert(parse_run(all, calls0, acc0, 1) is Some && result_fits(res, parse_run(all, calls0, acc0, 1)->0));
                            assert(parse_gives(all, (1 + steps) as nat, res));
                        }
                        return res;
                    },
                }
            },
        }
    }
}

} // verus!
