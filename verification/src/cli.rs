//! The command line of the channel commands: `watch`, `advanced tail` and
//! `advanced publish`, and the help on them.

use vstd::prelude::*;

use crate::context::TopicArgs;
use crate::text::{
    chars_of, maybe_text, same_text, string_of, texts, texts_push,
};
use crate::watch::DEFAULT_BACKFILL;

verus! {

/// The options there are.
#[derive(Clone, Copy, Debug, PartialEq, Eq, Structural)]
pub enum Opt {
    Peer,
    NodeSeed,
    NodeSeedFile,
    RelayUrl,
    Membership,
    MembershipFile,
    InclusionProof,
    InclusionProofFile,
    Backfill,
    Json,
    Message,
    Help,
}

/// What a command takes beside the arguments all channel commands share.
#[derive(Clone, Copy, Debug, PartialEq, Eq, Structural)]
pub enum Form {
    /// `watch` and `advanced tail`.
    Watch,
    /// `advanced publish`.
    Publish,
}

/// The arguments of `watch`.
#[derive(Debug)]
pub struct WatchArgs {
    pub common: TopicArgs,
    /// How many stored messages to print before going live.
    pub backfill: usize,
    /// Whether to print one object a line.
    pub json: bool,
}

/// The arguments of `advanced publish`.
#[derive(Debug)]
pub struct PublishArgs {
    pub common: TopicArgs,
    /// The message; without one, each line of standard input is a message.
    pub message: Option<String>,
}

/// What help is about.
#[derive(Clone, Copy, Debug, PartialEq, Eq, Structural)]
pub enum Subject {
    /// The program.
    Program,
    /// The group of the advanced commands.
    Advanced,
    Watch,
    AdvancedTail,
    AdvancedPublish,
}

/// A command line that was understood.
#[derive(Debug)]
pub enum Command {
    Watch(WatchArgs),
    AdvancedTail(WatchArgs),
    AdvancedPublish(PublishArgs),
    /// Print the help on this.
    Help(Subject),
}

/// Why a command line was not understood.
#[derive(Debug)]
#[allow(inconsistent_fields)]
pub enum CliError {
    /// There is no such command.
    NoCommand,
    /// The command has no such option.
    Unknown(String),
    /// The option needs a value.
    NoValue(Opt),
    /// The option takes no value.
    HasValue(Opt),
    /// The option stands twice.
    Twice(Opt),
    /// A second topic.
    ExtraTopic(String),
    /// Not a number of messages.
    NotANumber(String),
    /// The two options exclude each other.
    Conflict(Opt, Opt),
    /// Nothing is wrong: the help is asked for.
    Help,
}

/// Why a command line was not understood, as values.
#[allow(inconsistent_fields)]
pub ghost enum ErrorView {
    NoCommand,
    Unknown(Seq<char>),
    NoValue(Opt),
    HasValue(Opt),
    Twice(Opt),
    ExtraTopic(Seq<char>),
    NotANumber(Seq<char>),
    Conflict(Opt, Opt),
    Help,
}

impl View for CliError {
    type V = ErrorView;

    open spec fn view(&self) -> ErrorView {
        match *self {
            CliError::NoCommand => ErrorView::NoCommand,
            CliError::Unknown(arg) => ErrorView::Unknown(arg@),
            CliError::NoValue(opt) => ErrorView::NoValue(opt),
            CliError::HasValue(opt) => ErrorView::HasValue(opt),
            CliError::Twice(opt) => ErrorView::Twice(opt),
            CliError::ExtraTopic(arg) => ErrorView::ExtraTopic(arg@),
            CliError::NotANumber(arg) => ErrorView::NotANumber(arg@),
            CliError::Conflict(a, b) => ErrorView::Conflict(a, b),
            CliError::Help => ErrorView::Help,
        }
    }
}

/// The option that `--name` is, for a command of a form.
pub open spec fn long_option(form: Form, name: Seq<char>) -> Option<Opt> {
    if name == "peer"@ {
        Some(Opt::Peer)
    } else if name == "node-seed"@ {
        Some(Opt::NodeSeed)
    } else if name == "node-seed-file"@ {
        Some(Opt::NodeSeedFile)
    } else if name == "relay-url"@ {
        Some(Opt::RelayUrl)
    } else if name == "membership"@ {
        Some(Opt::Membership)
    } else if name == "membership-file"@ {
        Some(Opt::MembershipFile)
    } else if name == "inclusion-proof"@ {
        Some(Opt::InclusionProof)
    } else if name == "inclusion-proof-file"@ {
        Some(Opt::InclusionProofFile)
    } else if form == Form::Watch && name == "backfill"@ {
        Some(Opt::Backfill)
    } else if form == Form::Watch && name == "json"@ {
        Some(Opt::Json)
    } else if form == Form::Publish && name == "message"@ {
        Some(Opt::Message)
    } else if name == "help"@ {
        Some(Opt::Help)
    } else {
        None
    }
}

/// The option that `--name` is.
fn find_option(form: Form, name: &str) -> (opt: Option<Opt>)
    ensures
        opt == long_option(form, name@),
{
    if same_text(name, "peer") {
        Some(Opt::Peer)
    } else if same_text(name, "node-seed") {
        Some(Opt::NodeSeed)
    } else if same_text(name, "node-seed-file") {
        Some(Opt::NodeSeedFile)
    } else if same_text(name, "relay-url") {
        Some(Opt::RelayUrl)
    } else if same_text(name, "membership") {
        Some(Opt::Membership)
    } else if same_text(name, "membership-file") {
        Some(Opt::MembershipFile)
    } else if same_text(name, "inclusion-proof") {
        Some(Opt::InclusionProof)
    } else if same_text(name, "inclusion-proof-file") {
        Some(Opt::InclusionProofFile)
    } else if form == Form::Watch && same_text(name, "backfill") {
        Some(Opt::Backfill)
    } else if form == Form::Watch && same_text(name, "json") {
        Some(Opt::Json)
    } else if form == Form::Publish && same_text(name, "message") {
        Some(Opt::Message)
    } else if same_text(name, "help") {
        Some(Opt::Help)
    } else {
        None
    }
}

/// What was given on a command line so far, as values.
#[verifier::ext_equal]
pub ghost struct GivenView {
    pub topic: Option<Seq<char>>,
    pub peer: Seq<Seq<char>>,
    pub node_seed: Option<Seq<char>>,
    pub node_seed_file: Option<Seq<char>>,
    pub relay_url: Option<Seq<char>>,
    pub membership: Option<Seq<char>>,
    pub membership_file: Option<Seq<char>>,
    pub inclusion_proof: Option<Seq<char>>,
    pub inclusion_proof_file: Option<Seq<char>>,
    pub backfill: Option<usize>,
    pub json: bool,
    pub message: Option<Seq<char>>,
}

/// What was given on a command line so far.
#[derive(Debug)]
struct Given {
    topic: Option<String>,
    peer: Vec<String>,
    node_seed: Option<String>,
    node_seed_file: Option<String>,
    relay_url: Option<String>,
    membership: Option<String>,
    membership_file: Option<String>,
    inclusion_proof: Option<String>,
    inclusion_proof_file: Option<String>,
    backfill: Option<usize>,
    json: bool,
    message: Option<String>,
}

impl View for Given {
    type V = GivenView;

    closed spec fn view(&self) -> GivenView {
        GivenView {
            topic: maybe_text(self.topic),
            peer: texts(self.peer@),
            node_seed: maybe_text(self.node_seed),
            node_seed_file: maybe_text(self.node_seed_file),
            relay_url: maybe_text(self.relay_url),
            membership: maybe_text(self.membership),
            membership_file: maybe_text(self.membership_file),
            inclusion_proof: maybe_text(self.inclusion_proof),
            inclusion_proof_file: maybe_text(self.inclusion_proof_file),
            backfill: self.backfill,
            json: self.json,
            message: maybe_text(self.message),
        }
    }
}

/// Nothing given yet.
pub open spec fn nothing_given() -> GivenView {
    GivenView {
        topic: None,
        peer: Seq::empty(),
        node_seed: None,
        node_seed_file: None,
        relay_url: None,
        membership: None,
        membership_file: None,
        inclusion_proof: None,
        inclusion_proof_file: None,
        backfill: None,
        json: false,
        message: None,
    }
}

/// Whether a character is a decimal digit.
pub open spec fn is_digit(c: char) -> bool {
    '0' <= c && c <= '9'
}

/// The number that decimal digits write.
pub open spec fn digits_value(digits: Seq<char>) -> nat
    decreases digits.len(),
{
    if digits.len() == 0 {
        0
    } else {
        (digits_value(digits.drop_last()) * 10 + (digits.last() as int - '0' as int)) as nat
    }
}

/// A text's digits, without the plus sign it may open with.
pub open spec fn unsigned(text: Seq<char>) -> Seq<char> {
    if text.len() > 0 && text[0] == '+' {
        text.drop_first()
    } else {
        text
    }
}

/// The number that a text writes in decimal, a plus sign before it or not, if it
/// does and the number fits.
pub open spec fn number_of(text: Seq<char>) -> Option<usize> {
    let digits = unsigned(text);
    if digits.len() > 0 && (forall|i: int| 0 <= i < digits.len() ==> is_digit(#[trigger] digits[i]))
        && digits_value(digits) <= usize::MAX {
        Some(digits_value(digits) as usize)
    } else {
        None
    }
}

/// What was given, with a value for an option that takes one: each but `--peer`
/// may stand once.
pub open spec fn with_value(
    given: GivenView,
    opt: Opt,
    value: Seq<char>,
) -> Result<GivenView, ErrorView> {
    let twice = Err(ErrorView::Twice(opt));
    match opt {
        Opt::Peer => Ok(GivenView { peer: given.peer.push(value), ..given }),
        Opt::NodeSeed => if given.node_seed is Some {
            twice
        } else {
            Ok(GivenView { node_seed: Some(value), ..given })
        },
        Opt::NodeSeedFile => if given.node_seed_file is Some {
            twice
        } else {
            Ok(GivenView { node_seed_file: Some(value), ..given })
        },
        Opt::RelayUrl => if given.relay_url is Some {
            twice
        } else {
            Ok(GivenView { relay_url: Some(value), ..given })
        },
        Opt::Membership => if given.membership is Some {
            twice
        } else {
            Ok(GivenView { membership: Some(value), ..given })
        },
        Opt::MembershipFile => if given.membership_file is Some {
            twice
        } else {
            Ok(GivenView { membership_file: Some(value), ..given })
        },
        Opt::InclusionProof => if given.inclusion_proof is Some {
            twice
        } else {
            Ok(GivenView { inclusion_proof: Some(value), ..given })
        },
        Opt::InclusionProofFile => if given.inclusion_proof_file is Some {
            twice
        } else {
            Ok(GivenView { inclusion_proof_file: Some(value), ..given })
        },
        Opt::Backfill => if given.backfill is Some {
            twice
        } else {
            match number_of(value) {
                Some(n) => Ok(GivenView { backfill: Some(n), ..given }),
                None => Err(ErrorView::NotANumber(value)),
            }
        },
        Opt::Json | Opt::Help => Err(ErrorView::HasValue(opt)),
        Opt::Message => if given.message is Some {
            twice
        } else {
            Ok(GivenView { message: Some(value), ..given })
        },
    }
}

/// What was given, with the `--json` flag.
pub open spec fn with_json(given: GivenView) -> Result<GivenView, ErrorView> {
    if given.json {
        Err(ErrorView::Twice(Opt::Json))
    } else {
        Ok(GivenView { json: true, ..given })
    }
}

/// What was given, with an argument that is no option: the topic, once.
pub open spec fn with_topic(given: GivenView, arg: Seq<char>) -> Result<GivenView, ErrorView> {
    if given.topic is Some {
        Err(ErrorView::ExtraTopic(arg))
    } else {
        Ok(GivenView { topic: Some(arg), ..given })
    }
}

/// Whether an argument looks like an option: it opens with a dash, and is more
/// than that.
pub open spec fn dashed(arg: Seq<char>) -> bool {
    arg.len() > 1 && arg[0] == '-'
}

/// Where the first `=` of a text stands, or its length.
pub open spec fn equals_at(text: Seq<char>) -> int
    decreases text.len(),
{
    if text.len() == 0 || text[0] == '=' {
        0
    } else {
        1 + equals_at(text.drop_first())
    }
}

/// The option an argument names, and the value that stands in the argument
/// itself: `--name`, `--name=value`, `-m`, `-mvalue` or `-m=value`. A short `h` asks
/// for help, whatever stands behind it.
pub open spec fn option_in(form: Form, arg: Seq<char>) -> Option<(Opt, Option<Seq<char>>)> {
    if arg[1] == '-' {
        let body = arg.skip(2);
        let at = equals_at(body);
        let value = if at < body.len() {
            Some(body.skip(at + 1))
        } else {
            None
        };
        match long_option(form, body.take(at)) {
            Some(opt) => Some((opt, value)),
            None => None,
        }
    } else if form == Form::Publish && arg[1] == 'm' {
        let rest = arg.skip(2);
        if rest.len() == 0 {
            Some((Opt::Message, None))
        } else if rest[0] == '=' {
            Some((Opt::Message, Some(rest.drop_first())))
        } else {
            Some((Opt::Message, Some(rest)))
        }
    } else if arg[1] == 'h' {
        Some((Opt::Help, None))
    } else {
        None
    }
}

/// What a list of arguments gives, after what was given before. `--` ends the
/// options. Help that is asked for before anything is wrong ends the reading.
pub open spec fn given_by(
    form: Form,
    args: Seq<Seq<char>>,
    plain: bool,
    given: GivenView,
) -> Result<GivenView, ErrorView>
    decreases args.len(),
{
    if args.len() == 0 {
        Ok(given)
    } else {
        let arg = args[0];
        let rest = args.drop_first();
        if plain || !dashed(arg) {
            match with_topic(given, arg) {
                Ok(now) => given_by(form, rest, plain, now),
                Err(e) => Err(e),
            }
        } else if arg == "--"@ {
            given_by(form, rest, true, given)
        } else {
            match option_in(form, arg) {
                None => Err(ErrorView::Unknown(arg)),
                Some((Opt::Help, None)) => Err(ErrorView::Help),
                Some((Opt::Json, Some(_))) => Err(ErrorView::HasValue(Opt::Json)),
                Some((Opt::Json, None)) => match with_json(given) {
                    Ok(now) => given_by(form, rest, plain, now),
                    Err(e) => Err(e),
                },
                Some((opt, Some(value))) => match with_value(given, opt, value) {
                    Ok(now) => given_by(form, rest, plain, now),
                    Err(e) => Err(e),
                },
                Some((opt, None)) => if rest.len() == 0 || dashed(rest[0]) {
                    Err(ErrorView::NoValue(opt))
                } else {
                    match with_value(given, opt, rest[0]) {
                        Ok(now) => given_by(form, rest.drop_first(), plain, now),
                        Err(e) => Err(e),
                    }
                },
            }
        }
    }
}

/// What a whole list of arguments gives: a token and its file exclude each
/// other.
pub open spec fn all_given(form: Form, args: Seq<Seq<char>>) -> Result<GivenView, ErrorView> {
    match given_by(form, args, false, nothing_given()) {
        Err(e) => Err(e),
        Ok(given) => if given.membership is Some && given.membership_file is Some {
            Err(ErrorView::Conflict(Opt::Membership, Opt::MembershipFile))
        } else if given.inclusion_proof is Some && given.inclusion_proof_file is Some {
            Err(ErrorView::Conflict(Opt::InclusionProof, Opt::InclusionProofFile))
        } else {
            Ok(given)
        },
    }
}

/// Whether the shared arguments are what was given; no topic is a blank one.
pub open spec fn shares(args: TopicArgs, given: GivenView) -> bool {
    &&& args.topic@ == match given.topic {
        Some(topic) => topic,
        None => ""@,
    }
    &&& texts(args.peer@) == given.peer
    &&& maybe_text(args.node_seed) == given.node_seed
    &&& maybe_text(args.node_seed_file) == given.node_seed_file
    &&& maybe_text(args.relay_url) == given.relay_url
    &&& maybe_text(args.membership) == given.membership
    &&& maybe_text(args.membership_file) == given.membership_file
    &&& maybe_text(args.inclusion_proof) == given.inclusion_proof
    &&& maybe_text(args.inclusion_proof_file) == given.inclusion_proof_file
}

/// Whether the arguments of `watch` are what was given.
pub open spec fn is_watch(args: WatchArgs, given: GivenView) -> bool {
    &&& shares(args.common, given)
    &&& args.backfill == match given.backfill {
        Some(n) => n,
        None => DEFAULT_BACKFILL,
    }
    &&& args.json == given.json
}

/// Whether the arguments of `advanced publish` are what was given.
pub open spec fn is_publish(args: PublishArgs, given: GivenView) -> bool {
    shares(args.common, given) && maybe_text(args.message) == given.message
}

/// Which command the words name, and how many words that takes.
pub ghost enum Named {
    Watch,
    Tail,
    Publish,
    Help(Subject),
    Nothing,
}

/// Whether a word asks for help in place of a command.
pub open spec fn asks_help(word: Seq<char>) -> bool {
    word == "--help"@ || (dashed(word) && word[1] == 'h')
}

/// What `help` is asked about by the words behind it, if there is such a thing.
pub open spec fn subject_of(words: Seq<Seq<char>>) -> Option<Subject> {
    if words.len() == 0 {
        Some(Subject::Program)
    } else if words.len() == 1 && words[0] == "watch"@ {
        Some(Subject::Watch)
    } else if words[0] == "advanced"@ {
        advanced_subject(words.skip(1))
    } else {
        None
    }
}

/// What `help` is asked about within the advanced commands.
pub open spec fn advanced_subject(words: Seq<Seq<char>>) -> Option<Subject> {
    if words.len() == 0 {
        Some(Subject::Advanced)
    } else if words.len() == 1 && words[0] == "tail"@ {
        Some(Subject::AdvancedTail)
    } else if words.len() == 1 && words[0] == "publish"@ {
        Some(Subject::AdvancedPublish)
    } else {
        None
    }
}

/// A subject as a command.
pub open spec fn help_on(subject: Option<Subject>) -> Named {
    match subject {
        Some(subject) => Named::Help(subject),
        None => Named::Nothing,
    }
}

/// Which command a command line names.
pub open spec fn command_named(words: Seq<Seq<char>>) -> Named {
    if words.len() >= 1 && words[0] == "watch"@ {
        Named::Watch
    } else if words.len() >= 2 && words[0] == "advanced"@ && words[1] == "tail"@ {
        Named::Tail
    } else if words.len() >= 2 && words[0] == "advanced"@ && words[1] == "publish"@ {
        Named::Publish
    } else if words.len() >= 1 && asks_help(words[0]) {
        Named::Help(Subject::Program)
    } else if words.len() >= 1 && words[0] == "help"@ {
        help_on(subject_of(words.skip(1)))
    } else if words.len() >= 2 && words[0] == "advanced"@ && asks_help(words[1]) {
        Named::Help(Subject::Advanced)
    } else if words.len() >= 2 && words[0] == "advanced"@ && words[1] == "help"@ {
        help_on(advanced_subject(words.skip(2)))
    } else {
        Named::Nothing
    }
}

/// What a command line is whose arguments could not be read: a request for help
/// where that was asked for, and else what is wrong.
pub open spec fn not_read(
    e: ErrorView,
    subject: Subject,
    command: Result<Command, CliError>,
) -> bool {
    if e is Help {
        command matches Ok(Command::Help(of)) && of == subject
    } else {
        command matches Err(err) && err@ == e
    }
}

/// The number that a text writes in decimal.
fn parse_number(text: &str) -> (n: Option<usize>)
    ensures
        n == number_of(text@),
{
    let chars = chars_of(text);
    let ghost digits = unsigned(text@);
    let start: usize = if chars.len() > 0 && chars[0] == '+' {
        1
    } else {
        0
    };
    assert(digits =~= text@.skip(start as int));
    if start == chars.len() {
        return None;
    }
    let mut value: usize = 0;
    let mut i: usize = start;
    assert(digits.take(0) =~= Seq::<char>::empty());
    while i < chars.len()
        invariant
            chars@ == text@,
            start <= i <= chars@.len(),
            start <= 1,
            start < chars@.len(),
            digits == unsigned(text@),
            digits == text@.skip(start as int),
            value == digits_value(digits.take(i - start)),
            forall|j: int| 0 <= j < i - start ==> is_digit(#[trigger] digits[j]),
        decreases chars@.len() - i,
    {
        let c: char = chars[i];
        let k: Ghost<int> = Ghost(i - start);
        proof {
            assert(digits[k@] == c);
            assert(digits.take(k@ + 1).drop_last() =~= digits.take(k@));
        }
        match digit_of(c) {
            None => {
                return None;
            },
            Some(d) => {
                let next: Option<usize> = match value.checked_mul(10) {
                    Some(tens) => tens.checked_add(d),
                    None => None,
                };
                match next {
                    Some(next) => {
                        value = next;
                    },
                    None => {
                        proof {
                            digits_only_grow(digits, k@ + 1);
                        }
                        return None;
                    },
                }
            },
        }
        i += 1;
    }
    assert(digits.take(digits.len() as int) =~= digits);
    Some(value)
}

/// The value of a digit.
fn digit_of(c: char) -> (d: Option<usize>)
    ensures
        d is Some == is_digit(c),
        (d matches Some(d) ==> d == c as int - '0' as int),
{
    if '0' <= c && c <= '9' {
        Some((c as u32 - '0' as u32) as usize)
    } else {
        None
    }
}

/// More digits write no smaller a number.
proof fn digits_only_grow(digits: Seq<char>, n: int)
    requires
        0 <= n <= digits.len(),
    ensures
        (forall|i: int| 0 <= i < digits.len() ==> is_digit(#[trigger] digits[i])) ==> digits_value(
            digits.take(n),
        ) <= digits_value(digits),
    decreases digits.len() - n,
{
    if n == digits.len() {
        assert(digits.take(n) =~= digits);
    } else {
        digits_only_grow(digits, n + 1);
        assert(digits.take(n + 1).drop_last() =~= digits.take(n));
        assert(digits.take(n + 1).last() == digits[n]);
    }
}

impl Given {
    /// Nothing given yet.
    fn none() -> (given: Given)
        ensures
            given@ == nothing_given(),
    {
        let given = Given {
            topic: None,
            peer: Vec::new(),
            node_seed: None,
            node_seed_file: None,
            relay_url: None,
            membership: None,
            membership_file: None,
            inclusion_proof: None,
            inclusion_proof_file: None,
            backfill: None,
            json: false,
            message: None,
        };
        assert(given@ =~= nothing_given());
        given
    }

    /// Take a value for an option that takes one.
    fn take_value(&mut self, opt: Opt, value: String) -> (done: Result<(), CliError>)
        ensures
            match with_value(old(self)@, opt, value@) {
                Ok(now) => done is Ok && final(self)@ == now,
                Err(e) => done is Err && done->Err_0@ == e,
            },
    {
        let ghost want = with_value(self@, opt, value@);
        match opt {
            Opt::Peer => {
                proof {
                    texts_push(self.peer@, value);
                }
                self.peer.push(value);
            },
            Opt::NodeSeed => {
                if self.node_seed.is_some() {
                    return Err(CliError::Twice(opt));
                }
                self.node_seed = Some(value);
            },
            Opt::NodeSeedFile => {
                if self.node_seed_file.is_some() {
                    return Err(CliError::Twice(opt));
                }
                self.node_seed_file = Some(value);
            },
            Opt::RelayUrl => {
                if self.relay_url.is_some() {
                    return Err(CliError::Twice(opt));
                }
                self.relay_url = Some(value);
            },
            Opt::Membership => {
                if self.membership.is_some() {
                    return Err(CliError::Twice(opt));
                }
                self.membership = Some(value);
            },
            Opt::MembershipFile => {
                if self.membership_file.is_some() {
                    return Err(CliError::Twice(opt));
                }
                self.membership_file = Some(value);
            },
            Opt::InclusionProof => {
                if self.inclusion_proof.is_some() {
                    return Err(CliError::Twice(opt));
                }
                self.inclusion_proof = Some(value);
            },
            Opt::InclusionProofFile => {
                if self.inclusion_proof_file.is_some() {
                    return Err(CliError::Twice(opt));
                }
                self.inclusion_proof_file = Some(value);
            },
            Opt::Message => {
                if self.message.is_some() {
                    return Err(CliError::Twice(opt));
                }
                self.message = Some(value);
            },
            Opt::Backfill => {
                if self.backfill.is_some() {
                    return Err(CliError::Twice(opt));
                }
                match parse_number(value.as_str()) {
                    Some(n) => {
                        self.backfill = Some(n);
                    },
                    None => {
                        return Err(CliError::NotANumber(value));
                    },
                }
            },
            Opt::Json | Opt::Help => {
                return Err(CliError::HasValue(opt));
            },
        }
        assert(self@ =~= want->Ok_0);
        Ok(())
    }

    /// Take the topic.
    fn take_topic(&mut self, arg: &String) -> (done: Result<(), CliError>)
        ensures
            match with_topic(old(self)@, arg@) {
                Ok(now) => done is Ok && final(self)@ == now,
                Err(e) => done is Err && done->Err_0@ == e,
            },
    {
        if self.topic.is_some() {
            return Err(CliError::ExtraTopic(arg.clone()));
        }
        let ghost want = with_topic(self@, arg@);
        self.topic = Some(arg.clone());
        assert(self@ =~= want->Ok_0);
        Ok(())
    }

    /// Take the `--json` flag.
    fn take_json(&mut self) -> (done: Result<(), CliError>)
        ensures
            match with_json(old(self)@) {
                Ok(now) => done is Ok && final(self)@ == now,
                Err(e) => done is Err && done->Err_0@ == e,
            },
    {
        if self.json {
            return Err(CliError::Twice(Opt::Json));
        }
        let ghost want = with_json(self@);
        self.json = true;
        assert(self@ =~= want->Ok_0);
        Ok(())
    }

    /// The shared arguments.
    fn common(self) -> (args: TopicArgs)
        ensures
            shares(args, self@),
    {
        TopicArgs {
            topic: match self.topic {
                Some(topic) => topic,
                None => "".to_owned(),
            },
            peer: self.peer,
            node_seed: self.node_seed,
            node_seed_file: self.node_seed_file,
            relay_url: self.relay_url,
            membership: self.membership,
            membership_file: self.membership_file,
            inclusion_proof: self.inclusion_proof,
            inclusion_proof_file: self.inclusion_proof_file,
        }
    }
}

/// Whether an argument looks like an option.
fn is_dashed(arg: &str) -> (yes: bool)
    ensures
        yes == dashed(arg@),
{
    let chars = chars_of(arg);
    chars.len() > 1 && chars[0] == '-'
}

/// Where the first `=` stands from `from` on, or the number of characters.
fn find_equals(chars: &Vec<char>, from: usize) -> (at: usize)
    requires
        from <= chars@.len(),
    ensures
        from <= at <= chars@.len(),
        at - from == equals_at(chars@.skip(from as int)),
{
    let mut i: usize = from;
    while i < chars.len() && chars[i] != '='
        invariant
            from <= i <= chars@.len(),
            equals_at(chars@.skip(from as int)) == (i - from) + equals_at(chars@.skip(i as int)),
        ensures
            from <= i <= chars@.len(),
            equals_at(chars@.skip(from as int)) == (i - from) + equals_at(chars@.skip(i as int)),
            i < chars@.len() ==> chars@[i as int] == '=',
        decreases chars@.len() - i,
    {
        assert(chars@.skip(i as int).drop_first() =~= chars@.skip(i + 1));
        i += 1;
    }
    i
}

/// The option an argument names, and the value in the argument itself.
fn split_option(form: Form, arg: &str) -> (found: Option<(Opt, Option<String>)>)
    requires
        dashed(arg@),
    ensures
        match found {
            Some((opt, value)) => option_in(form, arg@) == Some((opt, maybe_text(value))),
            None => option_in(form, arg@) is None,
        },
{
    let chars = chars_of(arg);
    if chars[1] == '-' {
        let at: usize = find_equals(&chars, 2);
        let name = string_of(&chars, 2, at);
        let ghost body = arg@.skip(2);
        assert(name@ =~= body.take(at - 2));
        let opt = match find_option(form, name.as_str()) {
            Some(opt) => opt,
            None => {
                return None;
            },
        };
        if at < chars.len() {
            let value = string_of(&chars, at + 1, chars.len());
            assert(value@ =~= body.skip(at - 2 + 1));
            Some((opt, Some(value)))
        } else {
            Some((opt, None))
        }
    } else if form == Form::Publish && chars[1] == 'm' {
        let ghost rest = arg@.skip(2);
        if chars.len() == 2 {
            Some((Opt::Message, None))
        } else if chars[2] == '=' {
            let value = string_of(&chars, 3, chars.len());
            assert(value@ =~= rest.drop_first());
            Some((Opt::Message, Some(value)))
        } else {
            let value = string_of(&chars, 2, chars.len());
            assert(value@ =~= rest);
            Some((Opt::Message, Some(value)))
        }
    } else if chars[1] == 'h' {
        Some((Opt::Help, None))
    } else {
        None
    }
}

/// What the arguments from `from` on give.
fn read_args(form: Form, args: &Vec<String>, from: usize) -> (read: Result<Given, CliError>)
    requires
        from <= args@.len(),
    ensures
        match all_given(form, texts(args@).skip(from as int)) {
            Ok(given) => read is Ok && read->Ok_0@ == given,
            Err(e) => read is Err && read->Err_0@ == e,
        },
{
    let ghost words = texts(args@);
    let ghost all = given_by(form, words.skip(from as int), false, nothing_given());
    let mut given = Given::none();
    let mut plain = false;
    let mut i: usize = from;
    while i < args.len()
        invariant
            from <= i <= args@.len(),
            words == texts(args@),
            all == given_by(form, words.skip(from as int), false, nothing_given()),
            all == given_by(form, words.skip(i as int), plain, given@),
        decreases args@.len() - i,
    {
        let arg = &args[i];
        let ghost here = words.skip(i as int);
        proof {
            assert(here[0] == arg@);
            assert(here.drop_first() =~= words.skip(i + 1));
        }
        if plain || !is_dashed(arg.as_str()) {
            if let Err(e) = given.take_topic(arg) {
                return Err(e);
            }
            i += 1;
        } else if same_text(arg.as_str(), "--") {
            plain = true;
            i += 1;
        } else {
            match split_option(form, arg.as_str()) {
                None => {
                    return Err(CliError::Unknown(arg.clone()));
                },
                Some((opt, Some(value))) => {
                    if let Err(e) = given.take_value(opt, value) {
                        return Err(e);
                    }
                    i += 1;
                },
                Some((opt, None)) => {
                    if opt == Opt::Help {
                        return Err(CliError::Help);
                    }
                    if opt == Opt::Json {
                        if let Err(e) = given.take_json() {
                            return Err(e);
                        }
                        i += 1;
                    } else {
                        if i + 1 == args.len() || is_dashed(args[i + 1].as_str()) {
                            assert(i + 1 < args@.len() ==> words.skip(i + 1)[0] == args@[i + 1]@);
                            return Err(CliError::NoValue(opt));
                        }
                        proof {
                            assert(words.skip(i + 1)[0] == args@[i + 1]@);
                            assert(words.skip(i + 1).drop_first() =~= words.skip(i + 2));
                        }
                        if let Err(e) = given.take_value(opt, args[i + 1].clone()) {
                            return Err(e);
                        }
                        i += 2;
                    }
                },
            }
        }
    }
    assert(words.skip(words.len() as int) =~= Seq::<Seq<char>>::empty());
    if given.membership.is_some() && given.membership_file.is_some() {
        return Err(CliError::Conflict(Opt::Membership, Opt::MembershipFile));
    }
    if given.inclusion_proof.is_some() && given.inclusion_proof_file.is_some() {
        return Err(CliError::Conflict(Opt::InclusionProof, Opt::InclusionProofFile));
    }
    Ok(given)
}

/// The arguments of `watch`, from `from` on.
fn read_watch(args: &Vec<String>, from: usize) -> (read: Result<WatchArgs, CliError>)
    requires
        from <= args@.len(),
    ensures
        match all_given(Form::Watch, texts(args@).skip(from as int)) {
            Ok(given) => read is Ok && is_watch(read->Ok_0, given),
            Err(e) => read is Err && read->Err_0@ == e,
        },
{
    let given = match read_args(Form::Watch, args, from) {
        Ok(given) => given,
        Err(e) => {
            return Err(e);
        },
    };
    let backfill: usize = match given.backfill {
        Some(n) => n,
        None => DEFAULT_BACKFILL,
    };
    let json = given.json;
    Ok(WatchArgs { common: given.common(), backfill, json })
}

/// The arguments of `advanced publish`, from `from` on.
fn read_publish(args: &Vec<String>, from: usize) -> (read: Result<PublishArgs, CliError>)
    requires
        from <= args@.len(),
    ensures
        match all_given(Form::Publish, texts(args@).skip(from as int)) {
            Ok(given) => read is Ok && is_publish(read->Ok_0, given),
            Err(e) => read is Err && read->Err_0@ == e,
        },
{
    let given = match read_args(Form::Publish, args, from) {
        Ok(given) => given,
        Err(e) => {
            return Err(e);
        },
    };
    let message = crate::text::copy_maybe(&given.message);
    Ok(PublishArgs { common: given.common(), message })
}

/// What a command line is whose arguments could not be read.
fn unread(e: CliError, subject: Subject) -> (command: Result<Command, CliError>)
    ensures
        not_read(e@, subject, command),
{
    match e {
        CliError::Help => Ok(Command::Help(subject)),
        e => Err(e),
    }
}

/// Whether a word asks for help in place of a command.
fn is_help(word: &str) -> (yes: bool)
    ensures
        yes == asks_help(word@),
{
    let chars = chars_of(word);
    same_text(word, "--help") || (chars.len() > 1 && chars[0] == '-' && chars[1] == 'h')
}

/// What the words from `from` on ask for help about, within the advanced commands.
fn find_advanced(args: &Vec<String>, from: usize) -> (subject: Option<Subject>)
    requires
        from <= args@.len(),
    ensures
        subject == advanced_subject(texts(args@).skip(from as int)),
{
    let ghost words = texts(args@).skip(from as int);
    if args.len() == from {
        return Some(Subject::Advanced);
    }
    assert(words[0] == args@[from as int]@);
    if args.len() - from == 1 && same_text(args[from].as_str(), "tail") {
        Some(Subject::AdvancedTail)
    } else if args.len() - from == 1 && same_text(args[from].as_str(), "publish") {
        Some(Subject::AdvancedPublish)
    } else {
        None
    }
}

/// What the words from `from` on ask for help about.
fn find_subject(args: &Vec<String>, from: usize) -> (subject: Option<Subject>)
    requires
        from <= args@.len(),
    ensures
        subject == subject_of(texts(args@).skip(from as int)),
{
    let ghost words = texts(args@).skip(from as int);
    if args.len() == from {
        return Some(Subject::Program);
    }
    assert(words[0] == args@[from as int]@);
    if args.len() - from == 1 && same_text(args[from].as_str(), "watch") {
        Some(Subject::Watch)
    } else if same_text(args[from].as_str(), "advanced") {
        assert(words.skip(1) =~= texts(args@).skip(from + 1));
        find_advanced(args, from + 1)
    } else {
        None
    }
}

/// The command that a command line, without the program's name, is.
pub fn parse(args: &Vec<String>) -> (command: Result<Command, CliError>)
    ensures
        ({
            let words = texts(args@);
            match command_named(words) {
                Named::Nothing => command matches Err(e) && e@ == ErrorView::NoCommand,
                Named::Help(subject) => command matches Ok(Command::Help(of)) && of == subject,
                Named::Watch => match all_given(Form::Watch, words.skip(1)) {
                    Ok(given) => command matches Ok(Command::Watch(a)) && is_watch(a, given),
                    Err(e) => not_read(e, Subject::Watch, command),
                },
                Named::Tail => match all_given(Form::Watch, words.skip(2)) {
                    Ok(given) => command matches Ok(Command::AdvancedTail(a)) && is_watch(a, given),
                    Err(e) => not_read(e, Subject::AdvancedTail, command),
                },
                Named::Publish => match all_given(Form::Publish, words.skip(2)) {
                    Ok(given) => command matches Ok(Command::AdvancedPublish(a)) && is_publish(
                        a,
                        given,
                    ),
                    Err(e) => not_read(e, Subject::AdvancedPublish, command),
                },
            }
        }),
{
    let ghost words = texts(args@);
    if args.len() == 0 {
        return Err(CliError::NoCommand);
    }
    assert(words[0] == args@[0]@);
    if same_text(args[0].as_str(), "watch") {
        return match read_watch(args, 1) {
            Ok(a) => Ok(Command::Watch(a)),
            Err(e) => unread(e, Subject::Watch),
        };
    }
    let advanced = args.len() >= 2 && same_text(args[0].as_str(), "advanced");
    if advanced {
        assert(words[1] == args@[1]@);
        if same_text(args[1].as_str(), "tail") {
            return match read_watch(args, 2) {
                Ok(a) => Ok(Command::AdvancedTail(a)),
                Err(e) => unread(e, Subject::AdvancedTail),
            };
        }
        if same_text(args[1].as_str(), "publish") {
            return match read_publish(args, 2) {
                Ok(a) => Ok(Command::AdvancedPublish(a)),
                Err(e) => unread(e, Subject::AdvancedPublish),
            };
        }
    }
    let subject = if is_help(args[0].as_str()) {
        Some(Subject::Program)
    } else if same_text(args[0].as_str(), "help") {
        find_subject(args, 1)
    } else if advanced && is_help(args[1].as_str()) {
        Some(Subject::Advanced)
    } else if advanced && same_text(args[1].as_str(), "help") {
        find_advanced(args, 2)
    } else {
        None
    };
    match subject {
        Some(subject) => Ok(Command::Help(subject)),
        None => Err(CliError::NoCommand),
    }
}

/// A number reads back: what decimal digits write, with or without a plus sign, is
/// the number, and a text with anything else in it, or without a digit, is none.
pub proof fn a_number_option_reads_back(n: usize, text: Seq<char>, i: int)
    ensures
        number_of(crate::text::decimal(n as nat)) == Some(n),
        number_of(seq!['+'] + crate::text::decimal(n as nat)) == Some(n),
        number_of(Seq::empty()) is None,
        0 < i < text.len() && !(48 <= text[i] as int <= 57) ==> number_of(text) is None,
        number_of(text) matches Some(v) ==> crate::text::number_read(unsigned(text), 10) == v,
{
    let d = crate::text::decimal(n as nat);
    crate::text::a_decimal_reads_back(n as nat);
    digits_read_alike(d);
    assert(d[0] as int != '+' as int);
    assert((seq!['+'] + d).drop_first() =~= d);
    assert(unsigned(d) == d);
    let digits = unsigned(text);
    if 0 < i < text.len() && !(48 <= text[i] as int <= 57) {
        if text[0] == '+' {
            assert(digits[i - 1] == text[i]);
            assert(!is_digit(digits[i - 1]));
        } else {
            assert(!is_digit(digits[i]));
        }
    }
    if number_of(text) is Some {
        digits_read_alike(digits);
    }
}

proof fn digits_read_alike(digits: Seq<char>)
    requires
        forall|i: int| 0 <= i < digits.len() ==> 48 <= (#[trigger] digits[i]) as int <= 57,
    ensures
        digits_value(digits) == crate::text::number_read(digits, 10),
    decreases digits.len(),
{
    if digits.len() > 0 {
        let front = digits.drop_last();
        assert forall|i: int| 0 <= i < front.len() implies 48 <= (#[trigger] front[i]) as int
            <= 57 by {
            assert(front[i] == digits[i]);
        }
        digits_read_alike(front);
        assert(digits.last() == digits[digits.len() - 1]);
    }
}

/// An option's value goes to its own place and to no other: a peer is added behind
/// those given, any other value is taken once, and the second is an error; a flag
/// takes none.
pub proof fn a_value_goes_to_its_option(given: GivenView, opt: Opt, value: Seq<char>)
    ensures
        with_value(given, opt, value) matches Ok(now) ==> {
            &&& now.topic == given.topic && now.json == given.json
            &&& now.peer == if opt == Opt::Peer {
                given.peer + seq![value]
            } else {
                given.peer
            }
            &&& opt == Opt::NodeSeed ==> given.node_seed is None && now.node_seed == Some(value)
            &&& opt != Opt::NodeSeed ==> now.node_seed == given.node_seed
            &&& opt == Opt::NodeSeedFile ==> given.node_seed_file is None && now.node_seed_file
                == Some(value)
            &&& opt != Opt::NodeSeedFile ==> now.node_seed_file == given.node_seed_file
            &&& opt == Opt::RelayUrl ==> given.relay_url is None && now.relay_url == Some(value)
            &&& opt != Opt::RelayUrl ==> now.relay_url == given.relay_url
            &&& opt == Opt::Membership ==> given.membership is None && now.membership == Some(value)
            &&& opt != Opt::Membership ==> now.membership == given.membership
            &&& opt == Opt::MembershipFile ==> given.membership_file is None && now.membership_file
                == Some(value)
            &&& opt != Opt::MembershipFile ==> now.membership_file == given.membership_file
            &&& opt == Opt::InclusionProof ==> given.inclusion_proof is None && now.inclusion_proof
                == Some(value)
            &&& opt != Opt::InclusionProof ==> now.inclusion_proof == given.inclusion_proof
            &&& opt == Opt::InclusionProofFile ==> given.inclusion_proof_file is None
                && now.inclusion_proof_file == Some(value)
            &&& opt != Opt::InclusionProofFile ==> now.inclusion_proof_file
                == given.inclusion_proof_file
            &&& opt == Opt::Backfill ==> given.backfill is None && now.backfill == number_of(value)
            &&& opt != Opt::Backfill ==> now.backfill == given.backfill
            &&& opt == Opt::Message ==> given.message is None && now.message == Some(value)
            &&& opt != Opt::Message ==> now.message == given.message
        },
        with_value(given, opt, value) matches Err(e) ==> match e {
            ErrorView::HasValue(o) => o == opt && (opt == Opt::Json || opt == Opt::Help),
            ErrorView::NotANumber(text) => opt == Opt::Backfill && text == value && number_of(value)
                is None,
            ErrorView::Twice(o) => o == opt && opt != Opt::Peer && !(with_value(
                nothing_given(),
                opt,
                value,
            ) is Err && number_of(value) is Some),
            _ => false,
        },
        opt == Opt::Json || opt == Opt::Help ==> with_value(given, opt, value) is Err,
        opt == Opt::Peer ==> with_value(given, opt, value) is Ok,
        opt == Opt::Message && given.message is None ==> with_value(given, opt, value) is Ok,
        opt == Opt::RelayUrl && given.relay_url is None ==> with_value(given, opt, value) is Ok,
        opt == Opt::NodeSeed && given.node_seed is None ==> with_value(given, opt, value) is Ok,
        opt == Opt::NodeSeedFile && given.node_seed_file is None ==> with_value(given, opt, value)
            is Ok,
        opt == Opt::Membership && given.membership is None ==> with_value(given, opt, value) is Ok,
        opt == Opt::MembershipFile && given.membership_file is None ==> with_value(
            given,
            opt,
            value,
        ) is Ok,
        opt == Opt::InclusionProof && given.inclusion_proof is None ==> with_value(
            given,
            opt,
            value,
        ) is Ok,
        opt == Opt::InclusionProofFile && given.inclusion_proof_file is None ==> with_value(
            given,
            opt,
            value,
        ) is Ok,
        opt == Opt::Backfill && given.backfill is None && number_of(value) is Some ==> with_value(
            given,
            opt,
            value,
        ) is Ok,
{
    assert(given.peer.push(value) =~= given.peer + seq![value]);
}

proof fn equals_at_is_the_first(text: Seq<char>, k: int)
    requires
        0 <= k <= text.len(),
        forall|i: int| 0 <= i < k ==> (#[trigger] text[i]) != '=',
        k == text.len() || text[k] == '=',
    ensures
        equals_at(text) == k,
    decreases k,
{
    if k > 0 {
        let rest = text.drop_first();
        assert forall|i: int| 0 <= i < k - 1 implies (#[trigger] rest[i]) != '=' by {
            assert(rest[i] == text[i + 1]);
        }
        assert(text[0] != '=');
        equals_at_is_the_first(rest, k - 1);
    }
}

/// An option's value may stand behind an equals sign or as the next argument: what
/// follows, and what comes of all of it, is the same.
pub proof fn a_value_stands_behind_equals_or_next(
    form: Form,
    name: Seq<char>,
    value: Seq<char>,
    rest: Seq<Seq<char>>,
    given: GivenView,
)
    requires
        name.len() > 0,
        !name.contains('='),
        long_option(form, name) matches Some(opt) ==> opt != Opt::Json && opt != Opt::Help,
        value.len() <= 1 || value[0] != '-',
    ensures
        long_option(form, name) is Some ==> given_by(
            form,
            seq![seq!['-', '-'] + name + seq!['='] + value] + rest,
            false,
            given,
        ) == given_by(form, seq![seq!['-', '-'] + name, value] + rest, false, given),
        long_option(form, name) matches Some(opt) ==> (with_value(given, opt, value) matches Ok(now)
            ==> given_by(form, seq![seq!['-', '-'] + name, value] + rest, false, given)
            == given_by(form, rest, false, now)),
        long_option(form, name) is None ==> given_by(
            form,
            seq![seq!['-', '-'] + name + seq!['='] + value] + rest,
            false,
            given,
        ) == Err::<GivenView, ErrorView>(
            ErrorView::Unknown(seq!['-', '-'] + name + seq!['='] + value),
        ),
{
    reveal_strlit("--");
    assert("--"@.len() == 2);
    let with = seq!['-', '-'] + name + seq!['='] + value;
    let bare = seq!['-', '-'] + name;
    let one = seq![with] + rest;
    let two = seq![bare, value] + rest;
    let n = name.len() as int;
    assert forall|i: int| 0 <= i < n implies name[i] != '=' by {
        assert(name.contains(name[i]));
    }
    assert(with.skip(2) =~= name + seq!['='] + value);
    assert(bare.skip(2) =~= name);
    assert forall|i: int| 0 <= i < n implies (#[trigger] with.skip(2)[i]) != '=' by {
        assert(with.skip(2)[i] == name[i]);
    }
    equals_at_is_the_first(with.skip(2), n);
    equals_at_is_the_first(name, n);
    assert(with.skip(2).take(n) =~= name);
    assert(with.skip(2).skip(n + 1) =~= value);
    assert(name.take(n) =~= name);
    assert(one[0] == with);
    assert(one.drop_first() =~= rest);
    assert(two[0] == bare);
    assert(two.drop_first() =~= seq![value] + rest);
    assert(two.drop_first()[0] == value);
    assert(two.drop_first().drop_first() =~= rest);
    assert(with.len() > 2 && bare.len() > 2);
    assert(dashed(with) && dashed(bare) && !dashed(value));
    assert(with != "--"@ && bare != "--"@);
}

/// Behind two dashes an argument is the topic whatever it looks like, and anywhere an
/// argument that does not begin with a dash is; the second topic is an error.
pub proof fn behind_two_dashes_all_is_topic(
    form: Form,
    arg: Seq<char>,
    rest: Seq<Seq<char>>,
    given: GivenView,
    plain: bool,
)
    requires
        plain || arg.len() <= 1 || arg[0] != '-',
    ensures
        given.topic is None ==> given_by(form, seq![arg] + rest, plain, given) == given_by(
            form,
            rest,
            plain,
            GivenView { topic: Some(arg), ..given },
        ),
        given.topic is Some ==> given_by(form, seq![arg] + rest, plain, given) == Err::<
            GivenView,
            ErrorView,
        >(ErrorView::ExtraTopic(arg)),
        given_by(form, seq![seq!['-', '-']] + rest, false, given) == given_by(
            form,
            rest,
            true,
            given,
        ),
        given_by(form, Seq::empty(), plain, given) == Ok::<GivenView, ErrorView>(given),
{
    reveal_strlit("--");
    assert("--"@ =~= seq!['-', '-']);
    let one = seq![arg] + rest;
    assert(one[0] == arg);
    assert(one.drop_first() =~= rest);
    let two = seq![seq!['-', '-']] + rest;
    assert(two[0] == seq!['-', '-']);
    assert(two.drop_first() =~= rest);
}

/// Options that say the same thing twice over are not taken together, and nothing
/// else that was read is refused.
pub proof fn a_token_and_its_file_conflict(form: Form, args: Seq<Seq<char>>)
    ensures
        ({
            let all = all_given(form, args);
            match given_by(form, args, false, nothing_given()) {
                Err(e) => all == Err::<GivenView, ErrorView>(e),
                Ok(given) => {
                    let memberships = given.membership is Some && given.membership_file is Some;
                    let proofs = given.inclusion_proof is Some && given.inclusion_proof_file
                        is Some;
                    &&& all is Ok <==> !memberships && !proofs
                    &&& all matches Ok(same) ==> same == given
                    &&& memberships ==> all == Err::<GivenView, ErrorView>(
                        ErrorView::Conflict(Opt::Membership, Opt::MembershipFile),
                    )
                    &&& proofs && !memberships ==> all == Err::<GivenView, ErrorView>(
                        ErrorView::Conflict(Opt::InclusionProof, Opt::InclusionProofFile),
                    )
                },
            }
        }),
{
}

/// Each option has one name, the options of watching are not known to publishing, nor
/// its message to watching, and the rest are known to both.
pub proof fn each_option_has_one_name(form: Form, a: Seq<char>, b: Seq<char>)
    ensures
        long_option(form, a) is Some && long_option(form, a) == long_option(form, b) ==> a == b,
        long_option(Form::Publish, a) != Some(Opt::Backfill),
        long_option(Form::Publish, a) != Some(Opt::Json),
        long_option(Form::Watch, a) != Some(Opt::Message),
        long_option(Form::Watch, a) matches Some(opt) ==> opt == Opt::Backfill || opt == Opt::Json
            || long_option(Form::Publish, a) == Some(opt),
        long_option(Form::Publish, a) matches Some(opt) ==> opt == Opt::Message || long_option(
            Form::Watch,
            a,
        ) == Some(opt),
{
    reveal_strlit("backfill");
    reveal_strlit("json");
    reveal_strlit("message");
    reveal_strlit("help");
    assert("backfill"@[0] != "help"@[0] && "json"@[0] != "help"@[0] && "message"@[0] != "help"@[0]);
}

/// What follows a command's words does not change which command is named.
pub proof fn a_command_is_named_by_its_first_words(words: Seq<Seq<char>>, more: Seq<Seq<char>>)
    ensures
        command_named(words) is Watch || command_named(words) is Tail || command_named(words)
            is Publish ==> command_named(words + more) == command_named(words),
        command_named(seq!["watch"@] + more) == Named::Watch,
        command_named(seq!["advanced"@, "tail"@] + more) == Named::Tail,
        command_named(seq!["advanced"@, "publish"@] + more) == Named::Publish,
        command_named(Seq::empty()) == Named::Nothing,
        command_named(seq!["--help"@] + more) == Named::Help(Subject::Program),
        command_named(seq!["advanced"@, "--help"@] + more) == Named::Help(Subject::Advanced),
        command_named(seq!["help"@]) == Named::Help(Subject::Program),
        command_named(seq!["help"@, "watch"@]) == Named::Help(Subject::Watch),
        command_named(seq!["help"@, "advanced"@, "tail"@]) == Named::Help(Subject::AdvancedTail),
        command_named(seq!["advanced"@, "help"@, "publish"@]) == Named::Help(
            Subject::AdvancedPublish,
        ),
{
    reveal_strlit("watch");
    reveal_strlit("advanced");
    reveal_strlit("tail");
    reveal_strlit("publish");
    reveal_strlit("help");
    reveal_strlit("--help");
    assert("watch"@[0] != "advanced"@[0]);
    assert("tail"@[0] != "publish"@[0]);
    assert("help"@[0] != "watch"@[0] && "help"@[0] != "advanced"@[0] && "help"@[0] != "tail"@[0]
        && "help"@[0] != "publish"@[0] && "help"@[0] != "--help"@[0]);
    assert("--help"@[0] != "watch"@[0] && "--help"@[0] != "advanced"@[0] && "--help"@[0]
        != "tail"@[0] && "--help"@[0] != "publish"@[0]);
    assert(seq!["help"@].skip(1) =~= Seq::empty());
    assert(seq!["help"@, "watch"@].skip(1) =~= seq!["watch"@]);
    assert(seq!["help"@, "advanced"@, "tail"@].skip(1) =~= seq!["advanced"@, "tail"@]);
    assert(seq!["advanced"@, "tail"@].skip(1) =~= seq!["tail"@]);
    assert(seq!["advanced"@, "help"@, "publish"@].skip(2) =~= seq!["publish"@]);
    assert(!asks_help("help"@));
    if words.len() >= 1 {
        assert((words + more)[0] == words[0]);
    }
    if words.len() >= 2 {
        assert((words + more)[1] == words[1]);
    }
    let w = seq!["watch"@] + more;
    assert(w[0] == "watch"@);
    let t = seq!["advanced"@, "tail"@] + more;
    assert(t[0] == "advanced"@ && t[1] == "tail"@);
    let p = seq!["advanced"@, "publish"@] + more;
    assert(p[0] == "advanced"@ && p[1] == "publish"@);
    let h = seq!["--help"@] + more;
    assert(h[0] == "--help"@);
    let a = seq!["advanced"@, "--help"@] + more;
    assert(a[0] == "advanced"@ && a[1] == "--help"@);
}

/// The flag for JSON is given once and takes no value, and what follows is read on.
pub proof fn a_flag_is_given_once(rest: Seq<Seq<char>>, given: GivenView)
    ensures
        given.json ==> given_by(
            Form::Watch,
            seq![seq!['-', '-', 'j', 's', 'o', 'n']] + rest,
            false,
            given,
        ) == Err::<GivenView, ErrorView>(ErrorView::Twice(Opt::Json)),
        !given.json ==> given_by(
            Form::Watch,
            seq![seq!['-', '-', 'j', 's', 'o', 'n']] + rest,
            false,
            given,
        ) == given_by(Form::Watch, rest, false, GivenView { json: true, ..given }),
{
    reveal_strlit("--");
    reveal_strlit("json");
    reveal_strlit("peer");
    reveal_strlit("node-seed");
    reveal_strlit("node-seed-file");
    reveal_strlit("relay-url");
    reveal_strlit("membership");
    reveal_strlit("membership-file");
    reveal_strlit("inclusion-proof");
    reveal_strlit("inclusion-proof-file");
    reveal_strlit("backfill");
    let arg = seq!['-', '-', 'j', 's', 'o', 'n'];
    let all = seq![arg] + rest;
    assert(all[0] == arg);
    assert(all.drop_first() =~= rest);
    assert(arg.skip(2) =~= "json"@);
    let name = "json"@;
    equals_at_is_the_first(name, 4);
    assert(name.take(4) =~= name);
    assert(arg != "--"@);
    assert(name[0] != "peer"@[0] && name[0] != "node-seed"@[0] && name[0] != "node-seed-file"@[0]
        && name[0] != "relay-url"@[0] && name[0] != "membership"@[0] && name[0]
        != "membership-file"@[0] && name[0] != "inclusion-proof"@[0] && name[0]
        != "inclusion-proof-file"@[0] && name[0] != "backfill"@[0]);
}

/// A message may be given by its letter: directly behind it, behind an equals sign, or
/// as the next argument, and it is the same.
pub proof fn a_message_is_given_by_its_letter(
    message: Seq<char>,
    rest: Seq<Seq<char>>,
    given: GivenView,
)
    requires
        given.message is None,
        message.len() > 0,
        message[0] != '-' && message[0] != '=',
    ensures
        ({
            let now = GivenView { message: Some(message), ..given };
            let after = given_by(Form::Publish, rest, false, now);
            &&& given_by(Form::Publish, seq![seq!['-', 'm'] + message] + rest, false, given)
                == after
            &&& given_by(Form::Publish, seq![seq!['-', 'm', '='] + message] + rest, false, given)
                == after
            &&& given_by(Form::Publish, seq![seq!['-', 'm'], message] + rest, false, given) == after
        }),
{
    reveal_strlit("--");
    let a = seq!['-', 'm'] + message;
    let b = seq!['-', 'm', '='] + message;
    let c = seq!['-', 'm'];
    let x = seq![a] + rest;
    let y = seq![b] + rest;
    let z = seq![c, message] + rest;
    assert(x[0] == a && y[0] == b && z[0] == c);
    assert(x.drop_first() =~= rest);
    assert(y.drop_first() =~= rest);
    assert(z.drop_first() =~= seq![message] + rest);
    assert(z.drop_first()[0] == message);
    assert(z.drop_first().drop_first() =~= rest);
    assert(a.skip(2) =~= message);
    assert(b.skip(2) =~= seq!['='] + message);
    assert(b.skip(2).drop_first() =~= message);
    assert(c.skip(2) =~= Seq::<char>::empty());
    assert("--"@[1] == '-');
    assert(a != "--"@ && b != "--"@ && c != "--"@);
}

/// What a command is run with is what was given: what was not named is not there, the
/// topic is empty, and two hundred messages are shown to start with.
pub proof fn a_command_runs_with_what_was_given(
    watch: WatchArgs,
    publish: PublishArgs,
    given: GivenView,
)
    requires
        is_watch(watch, given),
        is_publish(publish, given),
    ensures
        watch.backfill == if given.backfill is Some {
            given.backfill->0
        } else {
            200
        },
        watch.json == given.json,
        watch.common.topic@ == publish.common.topic@,
        given.topic is None ==> watch.common.topic@.len() == 0,
        given.topic matches Some(topic) ==> watch.common.topic@ == topic,
        watch.common.peer@.len() == given.peer.len(),
        forall|i: int|
            0 <= i < given.peer.len() ==> (#[trigger] watch.common.peer@[i])@ == given.peer[i],
        publish.message is Some == given.message is Some,
        publish.message matches Some(m) ==> given.message == Some(m@),
        watch.common.node_seed is Some == given.node_seed is Some,
        watch.common.node_seed matches Some(v) ==> given.node_seed == Some(v@),
        watch.common.node_seed_file is Some == given.node_seed_file is Some,
        watch.common.node_seed_file matches Some(v) ==> given.node_seed_file == Some(v@),
        watch.common.relay_url is Some == given.relay_url is Some,
        watch.common.relay_url matches Some(v) ==> given.relay_url == Some(v@),
        watch.common.membership is Some == given.membership is Some,
        watch.common.membership matches Some(v) ==> given.membership == Some(v@),
        watch.common.membership_file is Some == given.membership_file is Some,
        watch.common.membership_file matches Some(v) ==> given.membership_file == Some(v@),
        watch.common.inclusion_proof is Some == given.inclusion_proof is Some,
        watch.common.inclusion_proof matches Some(v) ==> given.inclusion_proof == Some(v@),
        watch.common.inclusion_proof_file is Some == given.inclusion_proof_file is Some,
        watch.common.inclusion_proof_file matches Some(v) ==> given.inclusion_proof_file == Some(
            v@,
        ),
{
    reveal_strlit("");
    assert forall|i: int| 0 <= i < given.peer.len() implies (#[trigger] watch.common.peer@[i])@
        == given.peer[i] by {
        assert(texts(watch.common.peer@)[i] == watch.common.peer@[i]@);
    }
}

/// An option that takes a value and is given none, because nothing follows or what
/// follows is an option itself, is an error that names it.
pub proof fn an_option_without_its_value_is_refused(
    form: Form,
    name: Seq<char>,
    next: Seq<char>,
    rest: Seq<Seq<char>>,
    given: GivenView,
)
    requires
        name.len() > 0,
        !name.contains('='),
        long_option(form, name) is Some,
        long_option(form, name) != Some(Opt::Json),
        long_option(form, name) != Some(Opt::Help),
        next.len() > 1,
        next[0] == '-',
    ensures
        given_by(form, seq![seq!['-', '-'] + name], false, given) == Err::<GivenView, ErrorView>(
            ErrorView::NoValue(long_option(form, name)->0),
        ),
        given_by(form, seq![seq!['-', '-'] + name, next] + rest, false, given) == Err::<
            GivenView,
            ErrorView,
        >(ErrorView::NoValue(long_option(form, name)->0)),
{
    reveal_strlit("--");
    let bare = seq!['-', '-'] + name;
    let one = seq![bare];
    let two = seq![bare, next] + rest;
    let n = name.len() as int;
    assert forall|i: int| 0 <= i < n implies name[i] != '=' by {
        assert(name.contains(name[i]));
    }
    assert(bare.skip(2) =~= name);
    equals_at_is_the_first(name, n);
    assert(name.take(n) =~= name);
    assert(one[0] == bare && one.drop_first().len() == 0);
    assert(two[0] == bare && two.drop_first()[0] == next);
    assert(bare.len() > 2 && "--"@.len() == 2);
    assert(bare != "--"@);
}

/// Help is asked for by its letter or its name, and whatever stands behind it is not
/// read.
pub proof fn help_is_shown_before_anything_else(
    form: Form,
    word: Seq<char>,
    rest: Seq<Seq<char>>,
    given: GivenView,
)
    requires
        word.len() > 1,
        word[0] == '-',
        word[1] == 'h',
    ensures
        given_by(form, seq![word] + rest, false, given) == Err::<GivenView, ErrorView>(
            ErrorView::Help,
        ),
        command_named(seq![word] + rest) == Named::Help(Subject::Program),
        command_named(seq!["advanced"@, word] + rest) == Named::Help(Subject::Advanced),
{
    reveal_strlit("--");
    reveal_strlit("watch");
    reveal_strlit("advanced");
    reveal_strlit("tail");
    reveal_strlit("publish");
    let all = seq![word] + rest;
    let two = seq!["advanced"@, word] + rest;
    assert(all[0] == word);
    assert(two[0] == "advanced"@ && two[1] == word);
    assert("--"@[1] == '-');
    assert(word != "--"@);
    assert("watch"@[0] != '-' && "advanced"@[0] != '-' && "tail"@[0] != '-' && "publish"@[0]
        != '-');
    assert("watch"@[0] != "advanced"@[0]);
    reveal_strlit("help");
    assert("help"@[0] != "advanced"@[0] && "help"@[0] != '-');
    reveal_strlit("--help");
    assert("--help"@[0] != "advanced"@[0]);
    assert(!asks_help("advanced"@));
}

/// Words that name no command name nothing: a first word that is none of those there
/// are, one of the second that is none, and more words behind what help is asked on
/// than name a command.
pub proof fn other_words_name_nothing(words: Seq<Seq<char>>)
    requires
        words.len() > 0,
        words[0].len() == 0 || words[0][0] != '-',
        words[0] != "watch"@,
        words[0] != "advanced"@,
    ensures
        words[0] != "help"@ ==> command_named(words) == Named::Nothing,
        words[0] == "help"@ && words.len() > 3 ==> command_named(words) == Named::Nothing,
        words[0] == "help"@ && words.len() == 3 && words[1] != "advanced"@ ==> command_named(words)
            == Named::Nothing,
        words[0] == "help"@ && words.len() == 2 && words[1] != "advanced"@ && words[1] != "watch"@
            ==> command_named(words) == Named::Nothing,
{
    reveal_strlit("--help");
    reveal_strlit("help");
    reveal_strlit("watch");
    reveal_strlit("advanced");
    assert("--help"@[0] == '-');
    assert("watch"@[0] != "advanced"@[0]);
    assert(!asks_help(words[0]));
    if words[0] == "help"@ && words.len() > 1 {
        let rest = words.skip(1);
        assert(rest[0] == words[1]);
        assert(rest.skip(1).len() == words.len() - 2);
    }
}

} // verus!
