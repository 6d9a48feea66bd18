use vstd::prelude::*;

verus! {

/// The number of peers taking part in replication.
pub const NODE_COUNT: usize = 3;

/// A peer, drawn from a fixed set known at build time.
#[derive(Clone, Copy, Debug, PartialEq, Eq, Structural)]
pub enum Node {
    ONE,
    TWO,
    THREE,
}

/// Position of a node in the fixed ordering `ONE, TWO, THREE`.
pub open spec fn slot_of(n: Node) -> nat {
    match n {
        Node::ONE => 0,
        Node::TWO => 1,
        Node::THREE => 2,
    }
}

/// The loopback address a node listens on.
pub open spec fn addr_of(n: Node) -> Seq<char> {
    match n {
        Node::ONE => "127.0.0.1:1901"@,
        Node::TWO => "127.0.0.1:1902"@,
        Node::THREE => "127.0.0.1:1903"@,
    }
}

/// The identifier of a node, in upper case.
pub open spec fn name_of(n: Node) -> Seq<char> {
    match n {
        Node::ONE => "ONE"@,
        Node::TWO => "TWO"@,
        Node::THREE => "THREE"@,
    }
}

/// Every node, in the fixed ordering.
pub open spec fn all_nodes() -> Seq<Node> {
    seq![Node::ONE, Node::TWO, Node::THREE]
}

/// The identifiers of all nodes, separated by a comma and a space.
pub open spec fn names_listed() -> Seq<char> {
    "ONE, TWO, THREE"@
}

/// Names whose result is what std's `str::to_uppercase` returns.
pub uninterp spec fn upper_of(s: Seq<char>) -> Seq<char>;

/// Relies on std's `str::to_uppercase`: the upper-case mapping of a string
/// depends on its characters alone.
#[verifier::external_body]
fn to_upper(s: &str) -> (r: String)
    ensures
        r@ == upper_of(s@),
{
    s.to_uppercase()
}

/// Whether two strings hold the same characters.
pub(crate) fn same_chars(a: &str, b: &str) -> (r: bool)
    ensures
        r == (a@ == b@),
{
    let n = a.unicode_len();
    if n != b.unicode_len() {
        return false;
    }
    let mut i: usize = 0;
    while i < n
        invariant
            n == a@.len(),
            n == b@.len(),
            i <= n,
            a@.subrange(0, i as int) == b@.subrange(0, i as int),
        decreases n - i,
    {
        if a.get_char(i) != b.get_char(i) {
            return false;
        }
        assert(a@.subrange(0, i + 1) == a@.subrange(0, i as int).push(a@[i as int]));
        assert(b@.subrange(0, i + 1) == b@.subrange(0, i as int).push(b@[i as int]));
        i = i + 1;
    }
    assert(a@ == a@.subrange(0, n as int));
    assert(b@ == b@.subrange(0, n as int));
    true
}

impl Node {
    /// Position of the node in the fixed ordering.
    pub fn slot(self) -> (r: usize)
        ensures
            r == slot_of(self),
            r < NODE_COUNT,
    {
        match self {
            Node::ONE => 0,
            Node::TWO => 1,
            Node::THREE => 2,
        }
    }

    /// The address the node listens on.
    pub fn get_addr(self) -> (r: String)
        ensures
            r@ == addr_of(self),
    {
        match self {
            Node::ONE => String::from_str("127.0.0.1:1901"),
            Node::TWO => String::from_str("127.0.0.1:1902"),
            Node::THREE => String::from_str("127.0.0.1:1903"),
        }
    }

    /// The identifier of the node, in upper case.
    pub fn name(self) -> (r: String)
        ensures
            r@ == name_of(self),
    {
        match self {
            Node::ONE => String::from_str("ONE"),
            Node::TWO => String::from_str("TWO"),
            Node::THREE => String::from_str("THREE"),
        }
    }

    /// Every node, in the fixed ordering; a broadcast goes to each of them.
    pub fn all() -> (r: Vec<Node>)
        ensures
            r@ == all_nodes(),
    {
        let r = vec![Node::ONE, Node::TWO, Node::THREE];
        assert(r@ == all_nodes());
        r
    }

    /// The identifiers of all nodes as one line, for a usage message.
    pub fn names() -> (r: String)
        ensures
            r@ == names_listed(),
    {
        String::from_str("ONE, TWO, THREE")
    }

    /// The node whose identifier is exactly `s`.
    pub fn from_upper(s: &str) -> (r: Option<Node>)
        ensures
            r matches Some(n) ==> name_of(n) == s@,
            r is None ==> forall|n: Node| name_of(n) != s@,
    {
        if same_chars(s, "ONE") {
            Some(Node::ONE)
        } else if same_chars(s, "TWO") {
            Some(Node::TWO)
        } else if same_chars(s, "THREE") {
            Some(Node::THREE)
        } else {
            None
        }
    }

    /// The node whose identifier matches `s` regardless of case.
    pub fn parse(s: &str) -> (r: Option<Node>)
        ensures
            r matches Some(n) ==> name_of(n) == upper_of(s@),
            r is None ==> forall|n: Node| name_of(n) != upper_of(s@),
    {
        let up = to_upper(s);
        Node::from_upper(up.as_str())
    }
}

} // verus!
