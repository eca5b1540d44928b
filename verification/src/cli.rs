//! The decisions behind the command line: joining the positional words
//! into the effective title, refusing an empty title, and telling the
//! known subcommands from an unknown one.

use vstd::prelude::*;
use vstd::string::StrSliceExecFns;
use vstd::string::StringExecFns;
use crate::text::join_with;
use crate::text::lemma_join_with_snoc;
use crate::scan::views_of;

verus! {

/// The effective title of a `create` invocation: the positional words
/// joined with single spaces.
pub open spec fn joined_words(words: Seq<Seq<char>>) -> Seq<char> {
    join_with(words, " "@)
}

/// Joins the positional words with single spaces.
pub fn join_title(words: &Vec<String>) -> (r: String)
    ensures
        r@ == joined_words(views_of(words@)),
{
    let mut out = String::new();
    let mut i: usize = 0;
    proof {
        assert(out@ =~= joined_words(views_of(words@.take(0))));
    }
    while i < words.len()
        invariant
            i <= words@.len(),
            out@ =~= joined_words(views_of(words@.take(i as int))),
        decreases words@.len() - i,
    {
        if i > 0 {
            out.append(" ");
        }
        out.append(words[i].as_str());
        i = i + 1;
        proof {
            let prev = views_of(words@.take(i - 1));
            assert(views_of(words@.take(i as int)) =~= prev.push(words@[i - 1]@));
            lemma_join_with_snoc(prev, " "@, words@[i - 1]@);
            assert(out@ =~= joined_words(views_of(words@.take(i as int))));
        }
    }
    proof {
        assert(words@.take(words@.len() as int) =~= words@);
    }
    out
}

/// The effective title, or nothing when it is empty — the usage error on
/// which `create` must write no file.
pub fn effective_title(words: &Vec<String>) -> (r: Option<String>)
    ensures
        match r {
            Some(t) => t@ == joined_words(views_of(words@)) && t@.len() > 0,
            None => joined_words(views_of(words@)).len() == 0,
        },
{
    let t = join_title(words);
    if t.as_str().is_empty() {
        None
    } else {
        Some(t)
    }
}

/// What one invocation is to do, decided from the arguments alone.
pub enum Action {
    /// No subcommand: print the help text and exit cleanly.
    ShowHelp,
    /// `create` with a non-empty effective title: write the record and
    /// regenerate the index.
    Create(String),
    /// `create` with an empty effective title: report the usage error and
    /// write nothing.
    EmptyTitle,
    /// `regen`: regenerate the index alone.
    Regen,
    /// Anything else: report the unknown subcommand and print the help.
    Unknown(String),
}

/// Decides what an invocation does. The arguments are those after the
/// program name; for `create`, the words after the subcommand form the
/// title.
pub fn dispatch(args: &Vec<String>) -> (r: Action)
    ensures
        match r {
            Action::ShowHelp => args@.len() == 0,
            Action::Create(t) => args@.len() > 0 && args@[0]@ == "create"@ && t@ == joined_words(
                views_of(args@.skip(1)),
            ) && t@.len() > 0,
            Action::EmptyTitle => args@.len() > 0 && args@[0]@ == "create"@ && joined_words(
                views_of(args@.skip(1)),
            ).len() == 0,
            Action::Regen => args@.len() > 0 && args@[0]@ == "regen"@,
            Action::Unknown(c) => args@.len() > 0 && c@ == args@[0]@ && c@ != "create"@ && c@
                != "regen"@,
        },
{
    if args.len() == 0 {
        return Action::ShowHelp;
    }
    let create_word = String::from_str("create");
    let regen_word = String::from_str("regen");
    if args[0] == create_word {
        let mut words: Vec<String> = Vec::new();
        let mut i: usize = 1;
        while i < args.len()
            invariant
                1 <= i <= args@.len(),
                words@ =~= args@.subrange(1, i as int),
            decreases args@.len() - i,
        {
            words.push(args[i].clone());
            i = i + 1;
        }
        proof {
            assert(words@ =~= args@.skip(1));
        }
        match effective_title(&words) {
            Some(t) => Action::Create(t),
            None => Action::EmptyTitle,
        }
    } else if args[0] == regen_word {
        Action::Regen
    } else {
        Action::Unknown(args[0].clone())
    }
}

/// The help text, printed when no subcommand is given and after an
/// unknown one.
pub fn help_text() -> (r: &'static str)
    ensures
        r@ == "adl - manage a directory of architecture decision records\n\nUsage:\n  adl create <words of the title>   add a numbered record and regenerate the index\n  adl regen                         regenerate the index alone\n"@,
{
    "adl - manage a directory of architecture decision records\n\nUsage:\n  adl create <words of the title>   add a numbered record and regenerate the index\n  adl regen                         regenerate the index alone\n"
}

} // verus!
