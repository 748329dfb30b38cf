//! Values of the interactive client's command line: playback and operate
//! modes, the commands, and the argument vector that a line splits into.

use vstd::prelude::*;
use vstd::string::StringExecFns;

verus! {

/// What `str::to_lowercase` makes of a string: its Unicode lowercase.
pub uninterp spec fn spec_lowercase(s: Seq<char>) -> Seq<char>;

/// Calls `str::to_lowercase`. Its result is named, not stated: the
/// lowercase mapping of Unicode is a table, a function of the text alone.
#[verifier::external_body]
fn lowercase(s: &str) -> (lower: String)
    ensures
        lower@ == spec_lowercase(s@),
{
    s.to_lowercase()
}

/// `true` when the two strings hold the same characters.
fn same_text(a: &str, b: &str) -> (same: bool)
    ensures
        same == (a@ == b@),
{
    let a_owned: String = a.to_owned();
    let b_owned: String = b.to_owned();
    a_owned == b_owned
}

/// The message of a refused mode: `prefix` followed by the input.
fn refusal(prefix: &str, input: &str) -> (message: String)
    ensures
        message@ == prefix@ + input@,
{
    let mut message: String = prefix.to_owned();
    message.append(input);
    message
}

/// How playback proceeds through the queue.
#[derive(Clone, Debug, PartialEq, Eq, Structural)]
pub enum PlaybackMode {
    Sequential,
    RepeatOne,
    RepeatAll,
    Shuffle,
    NoChange,
}

/// The playback mode named by a lowercased text, if any.
pub open spec fn playback_mode_named(lower: Seq<char>) -> Option<PlaybackMode> {
    if lower == "sequential"@ {
        Some(PlaybackMode::Sequential)
    } else if lower == "repeatone"@ {
        Some(PlaybackMode::RepeatOne)
    } else if lower == "repeatall"@ {
        Some(PlaybackMode::RepeatAll)
    } else if lower == "shuffle"@ {
        Some(PlaybackMode::Shuffle)
    } else if lower == "nochange"@ {
        Some(PlaybackMode::NoChange)
    } else {
        None
    }
}

/// Only the five documented names name a playback mode, each its own:
/// "sequential", "repeatone", "repeatall", "shuffle" and "nochange"; every
/// other text names none.
pub proof fn lemma_playback_mode_names(lower: Seq<char>)
    ensures
        playback_mode_named(lower) == Some(PlaybackMode::Sequential) <==> lower == "sequential"@,
        playback_mode_named(lower) == Some(PlaybackMode::RepeatOne) <==> lower == "repeatone"@,
        playback_mode_named(lower) == Some(PlaybackMode::RepeatAll) <==> lower == "repeatall"@,
        playback_mode_named(lower) == Some(PlaybackMode::Shuffle) <==> lower == "shuffle"@,
        playback_mode_named(lower) == Some(PlaybackMode::NoChange) <==> lower == "nochange"@,
        playback_mode_named(lower) is None <==> (lower != "sequential"@ && lower != "repeatone"@
            && lower != "repeatall"@ && lower != "shuffle"@ && lower != "nochange"@),
{
    reveal_strlit("sequential");
    reveal_strlit("repeatone");
    reveal_strlit("repeatall");
    reveal_strlit("shuffle");
    reveal_strlit("nochange");
    assert("repeatone"@[6] != "repeatall"@[6]);
    assert("sequential"@.len() != "repeatone"@.len());
    assert("sequential"@.len() != "repeatall"@.len());
    assert("shuffle"@.len() != "nochange"@.len());
}

/// The number by which a playback mode is sent on.
pub open spec fn playback_mode_code(mode: PlaybackMode) -> u32 {
    match mode {
        PlaybackMode::Sequential => 0,
        PlaybackMode::RepeatOne => 1,
        PlaybackMode::RepeatAll => 2,
        PlaybackMode::Shuffle => 3,
        PlaybackMode::NoChange => 99,
    }
}

/// Each playback mode is sent as a number of its own.
pub proof fn lemma_playback_codes_distinct(a: PlaybackMode, b: PlaybackMode)
    ensures
        playback_mode_code(a) == playback_mode_code(b) <==> a == b,
{
}

impl PlaybackMode {
    /// Reads a playback mode from the lowercased form `lower` of `input`;
    /// a text that names no mode is refused with a message that quotes
    /// `input`.
    pub fn from_lowercase(lower: &str, input: &str) -> (mode: Result<PlaybackMode, String>)
        ensures
            playback_mode_named(lower@) matches Some(m) ==> mode == Ok::<PlaybackMode, String>(m),
            playback_mode_named(lower@) is None ==> (mode matches Err(message) && message@
                == "Unknown playback mode: "@ + input@),
    {
        if same_text(lower, "sequential") {
            Ok(PlaybackMode::Sequential)
        } else if same_text(lower, "repeatone") {
            Ok(PlaybackMode::RepeatOne)
        } else if same_text(lower, "repeatall") {
            Ok(PlaybackMode::RepeatAll)
        } else if same_text(lower, "shuffle") {
            Ok(PlaybackMode::Shuffle)
        } else if same_text(lower, "nochange") {
            Ok(PlaybackMode::NoChange)
        } else {
            Err(refusal("Unknown playback mode: ", input))
        }
    }

    /// Reads a playback mode, whatever the letter case of its name.
    pub fn from_str(s: &str) -> (mode: Result<PlaybackMode, String>)
        ensures
            playback_mode_named(spec_lowercase(s@)) matches Some(m) ==> mode == Ok::<
                PlaybackMode,
                String,
            >(m),
            playback_mode_named(spec_lowercase(s@)) is None ==> (mode matches Err(message)
                && message@ == "Unknown playback mode: "@ + s@),
    {
        let lower = lowercase(s);
        PlaybackMode::from_lowercase(lower.as_str(), s)
    }
}

impl std::str::FromStr for PlaybackMode {
    type Err = String;

    fn from_str(s: &str) -> (mode: Result<Self, Self::Err>)
        ensures
            playback_mode_named(spec_lowercase(s@)) matches Some(m) ==> mode == Ok::<
                PlaybackMode,
                String,
            >(m),
            playback_mode_named(spec_lowercase(s@)) is None ==> (mode matches Err(message)
                && message@ == "Unknown playback mode: "@ + s@),
    {
        PlaybackMode::from_str(s)
    }
}

impl From<PlaybackMode> for u32 {
    fn from(val: PlaybackMode) -> (code: u32) {
        match val {
            PlaybackMode::Sequential => 0,
            PlaybackMode::RepeatOne => 1,
            PlaybackMode::RepeatAll => 2,
            PlaybackMode::Shuffle => 3,
            PlaybackMode::NoChange => 99,
        }
    }
}

impl vstd::std_specs::convert::FromSpecImpl<PlaybackMode> for u32 {
    open spec fn obeys_from_spec() -> bool {
        true
    }

    open spec fn from_spec(v: PlaybackMode) -> u32 {
        playback_mode_code(v)
    }
}

/// Where new tracks go in the queue.
#[derive(Clone, Debug, PartialEq, Eq, Structural)]
pub enum OperateMode {
    AppendToEnd,
    PlayNext,
    Replace,
}

/// The operate mode named by a lowercased text, if any.
pub open spec fn operate_mode_named(lower: Seq<char>) -> Option<OperateMode> {
    if lower == "append"@ || lower == "appendtoend"@ {
        Some(OperateMode::AppendToEnd)
    } else if lower == "next"@ || lower == "playnext"@ {
        Some(OperateMode::PlayNext)
    } else if lower == "replace"@ {
        Some(OperateMode::Replace)
    } else {
        None
    }
}

/// Only the documented names name an operate mode: "append" and
/// "appendtoend" name appending to the end, "next" and "playnext" playing
/// next, "replace" replacing; every other text names none.
pub proof fn lemma_operate_mode_names(lower: Seq<char>)
    ensures
        operate_mode_named(lower) == Some(OperateMode::AppendToEnd) <==> (lower == "append"@
            || lower == "appendtoend"@),
        operate_mode_named(lower) == Some(OperateMode::PlayNext) <==> (lower == "next"@ || lower
            == "playnext"@),
        operate_mode_named(lower) == Some(OperateMode::Replace) <==> lower == "replace"@,
        operate_mode_named(lower) is None <==> (lower != "append"@ && lower != "appendtoend"@
            && lower != "next"@ && lower != "playnext"@ && lower != "replace"@),
{
    reveal_strlit("append");
    reveal_strlit("appendtoend");
    reveal_strlit("next");
    reveal_strlit("playnext");
    reveal_strlit("replace");
    assert("next"@.len() != "append"@.len());
    assert("next"@.len() != "appendtoend"@.len());
    assert("playnext"@.len() != "append"@.len());
    assert("playnext"@.len() != "appendtoend"@.len());
    assert("replace"@.len() != "next"@.len());
    assert("replace"@.len() != "playnext"@.len());
    assert("replace"@.len() != "append"@.len());
    assert("replace"@.len() != "appendtoend"@.len());
}

/// The number by which an operate mode is sent on.
pub open spec fn operate_mode_code(mode: OperateMode) -> i32 {
    match mode {
        OperateMode::AppendToEnd => 0,
        OperateMode::PlayNext => 1,
        OperateMode::Replace => 2,
    }
}

/// Each operate mode is sent as a number of its own.
pub proof fn lemma_operate_codes_distinct(a: OperateMode, b: OperateMode)
    ensures
        operate_mode_code(a) == operate_mode_code(b) <==> a == b,
{
}

impl OperateMode {
    /// Reads an operate mode from the lowercased form `lower` of `input`;
    /// a text that names no mode is refused with a message that quotes
    /// `input`.
    pub fn from_lowercase(lower: &str, input: &str) -> (mode: Result<OperateMode, String>)
        ensures
            operate_mode_named(lower@) matches Some(m) ==> mode == Ok::<OperateMode, String>(m),
            operate_mode_named(lower@) is None ==> (mode matches Err(message) && message@
                == "Unknown operate mode: "@ + input@),
    {
        if same_text(lower, "append") || same_text(lower, "appendtoend") {
            Ok(OperateMode::AppendToEnd)
        } else if same_text(lower, "next") || same_text(lower, "playnext") {
            Ok(OperateMode::PlayNext)
        } else if same_text(lower, "replace") {
            Ok(OperateMode::Replace)
        } else {
            Err(refusal("Unknown operate mode: ", input))
        }
    }

    /// Reads an operate mode, whatever the letter case of its name.
    pub fn from_str(s: &str) -> (mode: Result<OperateMode, String>)
        ensures
            operate_mode_named(spec_lowercase(s@)) matches Some(m) ==> mode == Ok::<
                OperateMode,
                String,
            >(m),
            operate_mode_named(spec_lowercase(s@)) is None ==> (mode matches Err(message)
                && message@ == "Unknown operate mode: "@ + s@),
    {
        let lower = lowercase(s);
        OperateMode::from_lowercase(lower.as_str(), s)
    }
}

impl std::str::FromStr for OperateMode {
    type Err = String;

    fn from_str(s: &str) -> (mode: Result<Self, Self::Err>)
        ensures
            operate_mode_named(spec_lowercase(s@)) matches Some(m) ==> mode == Ok::<
                OperateMode,
                String,
            >(m),
            operate_mode_named(spec_lowercase(s@)) is None ==> (mode matches Err(message)
                && message@ == "Unknown operate mode: "@ + s@),
    {
        OperateMode::from_str(s)
    }
}

impl From<OperateMode> for i32 {
    fn from(val: OperateMode) -> (code: i32) {
        match val {
            OperateMode::AppendToEnd => 0,
            OperateMode::PlayNext => 1,
            OperateMode::Replace => 2,
        }
    }
}

impl vstd::std_specs::convert::FromSpecImpl<OperateMode> for i32 {
    open spec fn obeys_from_spec() -> bool {
        true
    }

    open spec fn from_spec(v: OperateMode) -> i32 {
        operate_mode_code(v)
    }
}

/// A command of the interactive client.
#[derive(Debug)]
pub enum Command {
    /// List contents of current directory
    Ls {
        /// Use long listing format
        long: bool,
    },
    /// Print current working directory
    Pwd,
    /// Change directory
    Cd {
        /// Directory to change to
        path: String,
        id: bool,
    },
    /// Operate playback with mix query
    Opq {
        /// Path to create query from
        path: String,
        /// Playback mode
        playback_mode: PlaybackMode,
        /// Whether to start playing instantly
        instant_play: bool,
        /// Operation mode
        operate_mode: OperateMode,
    },
    /// Exit the program
    Quit,
    Exit,
}

/// Where `cd` leads, relative to the current directory.
#[derive(Debug)]
pub enum CdTarget {
    /// The current directory itself.
    Stay,
    /// The current directory's parent.
    Parent,
    /// The root directory.
    Root,
    /// The current directory joined with the given path.
    Join(String),
}

/// Resolves the argument of `cd`: `.` is the current directory, `..` its
/// parent unless it is the root, `/` the root, and anything else is joined
/// to the current directory.
pub fn resolve_cd(path: &str, at_root: bool) -> (target: CdTarget)
    ensures
        path@ == "."@ ==> target is Stay,
        path@ == ".."@ && at_root ==> target is Stay,
        path@ == ".."@ && !at_root ==> target is Parent,
        path@ == "/"@ ==> target is Root,
        path@ != "."@ && path@ != ".."@ && path@ != "/"@ ==> (target matches CdTarget::Join(p)
            && p@ == path@),
{
    proof {
        reveal_strlit(".");
        reveal_strlit("..");
        reveal_strlit("/");
        assert("."@ =~= seq!['.']);
        assert(".."@ =~= seq!['.', '.']);
        assert("/"@ =~= seq!['/']);
        assert("/"@[0] != "."@[0]);
    }
    if same_text(path, ".") {
        CdTarget::Stay
    } else if same_text(path, "..") {
        if at_root {
            CdTarget::Stay
        } else {
            CdTarget::Parent
        }
    } else if same_text(path, "/") {
        CdTarget::Root
    } else {
        CdTarget::Join(path.to_owned())
    }
}

/// What `shlex::split` makes of a line: its words, split and unquoted as a
/// POSIX shell would, or nothing when the quoting is broken.
pub uninterp spec fn spec_shlex_split(line: Seq<char>) -> Option<Seq<Seq<char>>>;

/// Calls `shlex::split`. Its result is named, not stated: the shell
/// splitting rules take pages; it depends on the line alone.
#[verifier::external_body]
fn shlex_split(line: &str) -> (words: Option<Vec<String>>)
    ensures
        match words {
            Some(w) => spec_shlex_split(line@) == Some(w.deep_view()),
            None => spec_shlex_split(line@) is None,
        },
{
    shlex::split(line)
}

/// The words of a split line, or none when it could not be split.
pub open spec fn words_or_none(split: Option<Seq<Seq<char>>>) -> Seq<Seq<char>> {
    match split {
        Some(w) => w,
        None => Seq::empty(),
    }
}

/// Builds the argument vector of a command line from its split words: an
/// empty program name first, then the words; a line that could not be split
/// gives no words.
pub fn arguments_from_words(words: Option<Vec<String>>) -> (args: Vec<String>)
    ensures
        args.deep_view() == seq![Seq::<char>::empty()] + match words {
            Some(w) => w.deep_view(),
            None => Seq::<Seq<char>>::empty(),
        },
{
    let mut args: Vec<String> = Vec::new();
    args.push(String::new());
    let ghost first = args.deep_view();
    match words {
        Some(w) => {
            let mut i: usize = 0;
            while i < w.len()
                invariant
                    i <= w@.len(),
                    args.deep_view() == first + w.deep_view().take(i as int),
                decreases w@.len() - i,
            {
                let ghost before = args.deep_view();
                let word: String = w[i].clone();
                args.push(word);
                proof {
                    assert(w.deep_view()[i as int] == w@[i as int]@);
                    assert(args.deep_view() =~= before.push(w@[i as int]@));
                }
                i = i + 1;
                assert(args.deep_view() =~= first + w.deep_view().take(i as int));
            }
            assert(w.deep_view().take(w@.len() as int) =~= w.deep_view());
        },
        None => {
            assert(args.deep_view() =~= first + Seq::<Seq<char>>::empty());
        },
    }
    args
}

/// Splits a command line into the argument vector that the command parser
/// reads: an empty program name, then the line's words as the shell would
/// split them; a line whose quoting is broken gives no words.
pub fn command_line_args(line: &str) -> (args: Vec<String>)
    ensures
        args.deep_view() == seq![Seq::<char>::empty()] + words_or_none(spec_shlex_split(line@)),
{
    let words = shlex_split(line);
    arguments_from_words(words)
}

} // verus!
