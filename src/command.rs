use vstd::prelude::*;
use crate::node::same_chars;

verus! {

/// A line typed at the prompt, as the command loop acts on it.
#[derive(Clone, Debug, PartialEq, Eq)]
pub enum Command {
    /// `bc <text>`: broadcast the text to every node.
    Broadcast(String),
    /// `bc` with nothing after it.
    MissingText,
    /// Any other first word, which is carried along for the message.
    Unknown(String),
}

/// Names what std's `str::trim` returns: the text without leading and
/// trailing white space.
pub uninterp spec fn trim_of(s: Seq<char>) -> Seq<char>;

/// Relies on std's `str::trim`: the trimmed text depends on the characters
/// alone.
#[verifier::external_body]
fn trimmed(s: &str) -> (r: &str)
    ensures
        r@ == trim_of(s@),
{
    s.trim()
}

/// Where the first word of `t` ends: at the first space, or at the end.
pub open spec fn word_end(t: Seq<char>) -> nat
    decreases t.len(),
{
    if t.len() == 0 || t[0] == ' ' {
        0
    } else {
        1 + word_end(t.drop_first())
    }
}

/// The command that a trimmed line stands for: its first word selects the
/// command, and what follows the first space is the command's text.
pub open spec fn command_of(t: Seq<char>, c: Command) -> bool {
    let k = word_end(t) as int;
    let head = t.take(k);
    match c {
        Command::Broadcast(x) => head == "bc"@ && k < t.len() && x@ == t.skip(k + 1),
        Command::MissingText => head == "bc"@ && k == t.len(),
        Command::Unknown(name) => head != "bc"@ && name@ == head,
    }
}

proof fn lemma_word_end(t: Seq<char>, i: int)
    requires
        0 <= i <= t.len(),
        forall|j: int| 0 <= j < i ==> t[j] != ' ',
        i == t.len() || t[i] == ' ',
    ensures
        word_end(t) == i,
    decreases t.len(),
{
    if t.len() > 0 && t[0] != ' ' {
        let u = t.drop_first();
        assert forall|j: int| 0 <= j < i - 1 implies u[j] != ' ' by {
            assert(u[j] == t[j + 1]);
        }
        if i < t.len() {
            assert(u[i - 1] == t[i]);
        }
        lemma_word_end(u, i - 1);
    }
}

impl Command {
    /// Reads a line typed at the prompt: surrounding white space is dropped,
    /// the first word up to a space names the command, and the rest after that
    /// space is its text.
    pub fn parse(line: &str) -> (r: Command)
        ensures
            command_of(trim_of(line@), r),
    {
        let t = trimmed(line);
        let n = t.unicode_len();
        let mut k: usize = 0;
        while k < n && t.get_char(k) != ' '
            invariant
                n == t@.len(),
                k <= n,
                forall|j: int| 0 <= j < k ==> t@[j] != ' ',
            decreases n - k,
        {
            k = k + 1;
        }
        proof {
            lemma_word_end(t@, k as int);
        }
        let head = t.substring_char(0, k);
        assert(head@ == t@.take(k as int));
        if same_chars(head, "bc") {
            if k < n {
                let rest = t.substring_char(k + 1, n);
                assert(rest@ == t@.skip(k + 1));
                Command::Broadcast(String::from_str(rest))
            } else {
                Command::MissingText
            }
        } else {
            Command::Unknown(String::from_str(head))
        }
    }
}

} // verus!
