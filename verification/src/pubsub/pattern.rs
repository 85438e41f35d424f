use vstd::prelude::*;
use vstd::slice::slice_to_vec;

verus! {

/// Outcome of scanning a bracketed character class `[...]`.
pub enum ClassScan {
    /// No closing `]` was found: the `[` is an ordinary byte.
    Unterminated,
    /// The class closed; its member bytes and the index just past `]`.
    Closed(Seq<u8>, int),
    /// A range `a-b` whose lower end is the byte 255: computing its successor overflows.
    Overflow,
}

/// The bytes `lo + 1 ..= hi`, as a range step of a class adds them.
pub open spec fn range_after(lo: u8, hi: u8) -> Seq<u8> {
    Seq::new(if lo < hi { (hi - lo) as nat } else { 0 }, |k: int| (lo + 1 + k) as u8)
}

/// Scans the body of a class from index `i`, with `chars` collected so far and
/// `escaped` telling whether the previous byte was an unconsumed backslash.
pub open spec fn class_scan(p: Seq<u8>, i: int, chars: Seq<u8>, escaped: bool) -> ClassScan
    decreases p.len() - i,
{
    if i < 0 || i >= p.len() {
        ClassScan::Unterminated
    } else if escaped {
        class_scan(p, i + 1, chars.push(p[i]), false)
    } else if p[i] == 0x5cu8 {
        class_scan(p, i + 1, chars, true)
    } else if p[i] == 0x5du8 {
        ClassScan::Closed(chars, i + 1)
    } else if p[i] == 0x2du8 && chars.len() > 0 && i + 1 < p.len() && p[i + 1] != 0x5du8 {
        if chars.last() == 255u8 {
            ClassScan::Overflow
        } else {
            class_scan(p, i + 2, chars + range_after(chars.last(), p[i + 1]), false)
        }
    } else {
        class_scan(p, i + 1, chars.push(p[i]), false)
    }
}

/// Whether a class that starts at the front of `p` is negated (`[^...]`).
pub open spec fn class_negated(p: Seq<u8>) -> bool {
    p.len() > 1 && p[1] == 0x5eu8
}

/// The scan of a class at the front of `p`, which must start with `[`.
pub open spec fn class_at_front(p: Seq<u8>) -> ClassScan {
    if p.len() == 0 || p[0] != 0x5bu8 {
        ClassScan::Unterminated
    } else {
        class_scan(p, if class_negated(p) { 2 } else { 1 }, Seq::empty(), false)
    }
}

/// Whether the class at the front of `pattern` holds a range whose lower end
/// is byte 255.
fn class_overflows(pattern: &[u8]) -> (r: bool)
    ensures
        r == (class_at_front(pattern@) is Overflow),
{
    if pattern.len() == 0 || pattern[0] != 0x5bu8 {
        return false;
    }
    let negated = pattern.len() > 1 && pattern[1] == 0x5eu8;
    let mut i: usize = if negated { 2 } else { 1 };
    let mut chars: Vec<u8> = Vec::new();
    let mut escaped = false;
    while i < pattern.len()
        invariant
            1 <= i <= pattern@.len() + 1,
            class_at_front(pattern@) == class_scan(pattern@, i as int, chars@, escaped),
        decreases pattern@.len() - i,
    {
        if escaped {
            chars.push(pattern[i]);
            escaped = false;
            i += 1;
        } else if pattern[i] == 0x5cu8 {
            escaped = true;
            i += 1;
        } else if pattern[i] == 0x5du8 {
            return false;
        } else if pattern[i] == 0x2du8 && chars.len() > 0 && i + 1 < pattern.len() && pattern[i + 1]
            != 0x5du8 {
            let start = chars[chars.len() - 1];
            if start == 255u8 {
                return true;
            }
            let end = pattern[i + 1];
            let ghost before = chars@;
            let mut c = start;
            while c < end
                invariant
                    start <= c,
                    c == start || c <= end,
                    chars@ == before + range_after(start, c),
                decreases end - c,
            {
                c += 1;
                chars.push(c);
                assert(chars@ =~= before + range_after(start, c));
            }
            assert(chars@ =~= before + range_after(start, end));
            i += 2;
        } else {
            chars.push(pattern[i]);
            i += 1;
        }
    }
    false
}

/// Parses a character class at the front of `pattern`: its bytes, whether it
/// is negated, and how many bytes of the pattern it spans. `(None, 0)` when
/// the pattern does not start with a closed class.
fn parse_char_class(pattern: &[u8]) -> (res: (Option<(Vec<u8>, bool)>, usize))
    requires
        !(class_at_front(pattern@) is Overflow),
    ensures
        match class_at_front(pattern@) {
            ClassScan::Closed(chars, end) => res.0 matches Some((c, n)) && c@ == chars
                && n == class_negated(pattern@) && res.1 == end,
            _ => res.0 is None && res.1 == 0,
        },
{
    if pattern.len() == 0 || pattern[0] != 0x5bu8 {
        return (None, 0);
    }
    let negated = pattern.len() > 1 && pattern[1] == 0x5eu8;
    let mut i: usize = if negated { 2 } else { 1 };
    let mut chars: Vec<u8> = Vec::new();
    let mut escaped = false;
    while i < pattern.len()
        invariant
            1 <= i <= pattern@.len() + 1,
            negated == class_negated(pattern@),
            class_at_front(pattern@) == class_scan(pattern@, i as int, chars@, escaped),
            !(class_at_front(pattern@) is Overflow),
        decreases pattern@.len() - i,
    {
        if escaped {
            chars.push(pattern[i]);
            escaped = false;
            i += 1;
        } else if pattern[i] == 0x5cu8 {
            escaped = true;
            i += 1;
        } else if pattern[i] == 0x5du8 {
            return (Some((chars, negated)), i + 1);
        } else if pattern[i] == 0x2du8 && chars.len() > 0 && i + 1 < pattern.len() && pattern[i + 1]
            != 0x5du8 {
            let start = chars[chars.len() - 1];
            let end = pattern[i + 1];
            let ghost before = chars@;
            let mut c = start;
            while c < end
                invariant
                    start <= c,
                    c == start || c <= end,
                    chars@ == before + range_after(start, c),
                decreases end - c,
            {
                c += 1;
                chars.push(c);
                assert(chars@ =~= before + range_after(start, c));
            }
            assert(chars@ =~= before + range_after(start, end));
            i += 2;
        } else {
            chars.push(pattern[i]);
            i += 1;
        }
    }
    (None, 0)
}


/// Identifier of a client connection that holds a subscription.
pub type ConnectionId = usize;

/// A step of a pattern: a literal byte, `?`, `*`, or a character class.
pub enum Token {
    Lit(u8),
    Any,
    Star,
    Class(Seq<u8>, bool),
}

/// The kind of trie edge a token follows; a class edge does not record its bytes.
pub enum Edge {
    Lit(u8),
    Any,
    Star,
    Class,
}

pub open spec fn edge_of(t: Token) -> Edge {
    match t {
        Token::Lit(c) => Edge::Lit(c),
        Token::Any => Edge::Any,
        Token::Star => Edge::Star,
        Token::Class(_, _) => Edge::Class,
    }
}

/// Whether byte `c` is accepted by a class with member bytes `chars`.
pub open spec fn class_accepts(chars: Seq<u8>, negated: bool, c: u8) -> bool {
    chars.contains(c) != negated
}

pub proof fn lemma_class_scan_bounds(p: Seq<u8>, i: int, chars: Seq<u8>, escaped: bool)
    ensures
        class_scan(p, i, chars, escaped) matches ClassScan::Closed(_, end) ==> i < end <= p.len(),
    decreases p.len() - i,
{
    if i < 0 || i >= p.len() {
    } else if escaped {
        lemma_class_scan_bounds(p, i + 1, chars.push(p[i]), false);
    } else if p[i] == 0x5cu8 {
        lemma_class_scan_bounds(p, i + 1, chars, true);
    } else if p[i] == 0x5du8 {
    } else if p[i] == 0x2du8 && chars.len() > 0 && i + 1 < p.len() && p[i + 1] != 0x5du8 {
        if chars.last() != 255u8 {
            lemma_class_scan_bounds(p, i + 2, chars + range_after(chars.last(), p[i + 1]), false);
        }
    } else {
        lemma_class_scan_bounds(p, i + 1, chars.push(p[i]), false);
    }
}

/// The first token of a non-empty pattern and how many bytes it spans;
/// `None` when reading it would overflow (see `ClassScan::Overflow`).
pub open spec fn first_token(p: Seq<u8>) -> Option<(Token, int)> {
    if p[0] == 0x2au8 {
        Some((Token::Star, 1))
    } else if p[0] == 0x3fu8 {
        Some((Token::Any, 1))
    } else if p[0] == 0x5bu8 {
        match class_at_front(p) {
            ClassScan::Closed(chars, end) => Some((Token::Class(chars, class_negated(p)), end)),
            ClassScan::Unterminated => Some((Token::Lit(0x5bu8), 1)),
            ClassScan::Overflow => None,
        }
    } else if p[0] == 0x5cu8 && p.len() > 1 {
        Some((Token::Lit(p[1]), 2))
    } else {
        Some((Token::Lit(p[0]), 1))
    }
}

pub proof fn lemma_first_token_len(p: Seq<u8>)
    requires
        p.len() > 0,
    ensures
        first_token(p) matches Some((_, n)) ==> 1 <= n <= p.len(),
{
    if p[0] == 0x5bu8 {
        lemma_class_scan_bounds(p, if class_negated(p) { 2 } else { 1 }, Seq::empty(), false);
    }
}

/// The tokens of a subscription pattern: `*` and `?` are wildcards, `[...]` a
/// class (with `^` negation, `a-b` ranges and backslash escapes inside), a
/// backslash makes the next byte literal, anything else is literal.
/// `None` when the pattern holds a class range whose lower end is byte 255.
pub open spec fn pattern_tokens(p: Seq<u8>) -> Option<Seq<Token>>
    decreases p.len(),
{
    if p.len() == 0 {
        Some(Seq::empty())
    } else {
        match first_token(p) {
            None => None,
            Some((t, n)) => {
                proof {
                    lemma_first_token_len(p);
                }
                if 1 <= n <= p.len() {
                    match pattern_tokens(p.skip(n)) {
                        None => None,
                        Some(rest) => Some(seq![t] + rest),
                    }
                } else {
                    None
                }
            },
        }
    }
}

/// Whether the tokens from index 0 match `ch` from `pos`. A `*` matches any
/// run of bytes; at the very end of the channel only a lone trailing `*` is left
/// to match the empty rest.
pub open spec fn tokens_match(ts: Seq<Token>, ch: Seq<u8>, pos: int) -> bool
    decreases ts.len(), 1int, 0int,
{
    if ts.len() == 0 {
        pos == ch.len()
    } else if pos >= ch.len() {
        pos == ch.len() && ts.len() == 1 && ts[0] is Star
    } else {
        match ts[0] {
            Token::Lit(c) => ch[pos] == c && tokens_match(ts.drop_first(), ch, pos + 1),
            Token::Any => tokens_match(ts.drop_first(), ch, pos + 1),
            Token::Class(chars, negated) => class_accepts(chars, negated, ch[pos])
                && tokens_match(ts.drop_first(), ch, pos + 1),
            Token::Star => tokens_star(ts.drop_first(), ch, pos, ch.len() + 1int),
        }
    }
}

/// Whether `rest` matches `ch` from some split point in `lo..hi`.
pub open spec fn tokens_star(rest: Seq<Token>, ch: Seq<u8>, lo: int, hi: int) -> bool
    decreases rest.len() + 1, 0int, hi - lo,
{
    if hi <= lo {
        false
    } else {
        tokens_star(rest, ch, lo, hi - 1) || tokens_match(rest, ch, hi - 1)
    }
}

/// Whether subscription pattern `p` matches channel `ch`.
pub open spec fn pattern_matches(p: Seq<u8>, ch: Seq<u8>) -> bool {
    match pattern_tokens(p) {
        Some(ts) => tokens_match(ts, ch, 0),
        None => false,
    }
}

/// The trie path of a pattern.
pub open spec fn pattern_path(p: Seq<u8>) -> Option<Seq<Edge>> {
    match pattern_tokens(p) {
        Some(ts) => Some(ts.map_values(|t: Token| edge_of(t))),
        None => None,
    }
}

/// Subscriptions to channel patterns, kept in a trie keyed by pattern tokens.
pub struct PatternTrie {
    root: TrieNode,
}

struct TrieNode {
    children: Vec<(u8, Box<TrieNode>)>,
    wildcard_child: Option<Box<TrieNode>>,
    single_char_child: Option<Box<TrieNode>>,
    char_class_child: Option<Box<CharClassNode>>,
    subscribers: Vec<(Vec<u8>, ConnectionId)>,
}

struct CharClassNode {
    chars: Vec<u8>,
    negated: bool,
    next: Box<TrieNode>,
}

pub open spec fn sub_view(s: (Vec<u8>, ConnectionId)) -> (Seq<u8>, ConnectionId) {
    (s.0@, s.1)
}

pub open spec fn subs_view(v: Seq<(Vec<u8>, ConnectionId)>) -> Seq<(Seq<u8>, ConnectionId)> {
    v.map_values(|s: (Vec<u8>, ConnectionId)| sub_view(s))
}

spec fn lit_child(cs: Seq<(u8, Box<TrieNode>)>, c: u8) -> Option<TrieNode> {
    if exists|j: int| 0 <= j < cs.len() && cs[j].0 == c {
        let j = choose|j: int| 0 <= j < cs.len() && cs[j].0 == c;
        Some(*cs[j].1)
    } else {
        None
    }
}

spec fn child_for(node: TrieNode, e: Edge) -> Option<TrieNode> {
    match e {
        Edge::Lit(c) => lit_child(node.children@, c),
        Edge::Any => match node.single_char_child {
            Some(b) => Some(*b),
            None => None,
        },
        Edge::Star => match node.wildcard_child {
            Some(b) => Some(*b),
            None => None,
        },
        Edge::Class => match node.char_class_child {
            Some(cc) => Some(*cc.next),
            None => None,
        },
    }
}

/// The subscribers stored at the end of path `q` (empty when the path is absent).
spec fn subs_at(node: TrieNode, q: Seq<Edge>) -> Seq<(Seq<u8>, ConnectionId)>
    decreases q.len(),
{
    if q.len() == 0 {
        subs_view(node.subscribers@)
    } else {
        match child_for(node, q[0]) {
            Some(c) => subs_at(c, q.drop_first()),
            None => Seq::empty(),
        }
    }
}

/// Whether the path `q` of the trie matches `ch` from `pos`, reading each class
/// edge with the bytes stored at that node.
spec fn node_match(node: TrieNode, q: Seq<Edge>, ch: Seq<u8>, pos: int) -> bool
    decreases q.len(), 1int, 0int,
{
    if q.len() == 0 {
        pos == ch.len()
    } else if pos >= ch.len() {
        pos == ch.len() && q.len() == 1 && q[0] is Star && node.wildcard_child is Some
    } else {
        match q[0] {
            Edge::Lit(c) => ch[pos] == c && match lit_child(node.children@, c) {
                Some(n) => node_match(n, q.drop_first(), ch, pos + 1),
                None => false,
            },
            Edge::Any => match node.single_char_child {
                Some(n) => node_match(*n, q.drop_first(), ch, pos + 1),
                None => false,
            },
            Edge::Class => match node.char_class_child {
                Some(cc) => class_accepts(cc.chars@, cc.negated, ch[pos]) && node_match(
                    *cc.next,
                    q.drop_first(),
                    ch,
                    pos + 1,
                ),
                None => false,
            },
            Edge::Star => match node.wildcard_child {
                Some(w) => star_match(*w, q.drop_first(), ch, pos, ch.len() + 1int),
                None => false,
            },
        }
    }
}

/// Whether `rest` matches `ch` at `w` from some split point in `lo..hi`.
spec fn star_match(w: TrieNode, rest: Seq<Edge>, ch: Seq<u8>, lo: int, hi: int) -> bool
    decreases rest.len() + 1, 0int, hi - lo,
{
    if hi <= lo {
        false
    } else {
        star_match(w, rest, ch, lo, hi - 1) || node_match(w, rest, ch, hi - 1)
    }
}

proof fn lemma_star_match(w: TrieNode, rest: Seq<Edge>, ch: Seq<u8>, lo: int, hi: int)
    ensures
        star_match(w, rest, ch, lo, hi) <==> exists|i: int|
            lo <= i < hi && #[trigger] node_match(w, rest, ch, i),
    decreases hi - lo,
{
    if hi > lo {
        lemma_star_match(w, rest, ch, lo, hi - 1);
        if node_match(w, rest, ch, hi - 1) {
            assert(lo <= hi - 1 < hi);
        }
    }
}

/// Whether every class node already present along the path of `ts` holds the
/// class of the corresponding token.
spec fn classes_agree(node: TrieNode, ts: Seq<Token>) -> bool
    decreases ts.len(),
{
    if ts.len() == 0 {
        true
    } else {
        match child_for(node, edge_of(ts[0])) {
            None => true,
            Some(c) => (match ts[0] {
                Token::Class(chars, negated) => node.char_class_child.unwrap().chars@ == chars
                    && node.char_class_child.unwrap().negated == negated,
                _ => true,
            }) && classes_agree(c, ts.drop_first()),
        }
    }
}


/// Each node's literal children have distinct bytes, at every depth.
spec fn node_wf(node: TrieNode) -> bool
    decreases node,
{
    &&& forall|i: int, j: int|
        0 <= i < j < node.children@.len() ==> node.children@[i].0 != node.children@[j].0
    &&& forall|i: int|
        0 <= i < node.children@.len() ==> node_wf(*#[trigger] node.children@[i].1)
    &&& match node.wildcard_child {
        Some(w) => node_wf(*w),
        None => true,
    }
    &&& match node.single_char_child {
        Some(w) => node_wf(*w),
        None => true,
    }
    &&& match node.char_class_child {
        Some(cc) => node_wf(*cc.next),
        None => true,
    }
}


proof fn lemma_lit_child_decreases(node: TrieNode, c: u8)
    ensures
        lit_child(node.children@, c) matches Some(n) ==> decreases_to!(node => n),
{
    if exists|j: int| 0 <= j < node.children@.len() && node.children@[j].0 == c {
        let j = choose|j: int| 0 <= j < node.children@.len() && node.children@[j].0 == c;
        assert(decreases_to!(node => *node.children@[j].1));
    }
}

/// The subscribers reported for `ch` from `pos` at `node`, in the order of the
/// search: literal child, `?` child, class child, then the `*` child at
/// every split point.
spec fn find_spec(node: TrieNode, ch: Seq<u8>, pos: int) -> Seq<(Seq<u8>, ConnectionId)>
    decreases node, 0int, 0int,
{
    if pos >= ch.len() {
        subs_view(node.subscribers@) + match node.wildcard_child {
            Some(w) => subs_view(w.subscribers@),
            None => Seq::empty(),
        }
    } else {
        let c = ch[pos];
        let lit = match lit_child(node.children@, c) {
            Some(n) => {
                proof {
                    lemma_lit_child_decreases(node, c);
                }
                find_spec(n, ch, pos + 1)
            },
            None => Seq::empty(),
        };
        let single = match node.single_char_child {
            Some(n) => find_spec(*n, ch, pos + 1),
            None => Seq::empty(),
        };
        let class = match node.char_class_child {
            Some(cc) => if class_accepts(cc.chars@, cc.negated, c) {
                find_spec(*cc.next, ch, pos + 1)
            } else {
                Seq::empty()
            },
            None => Seq::empty(),
        };
        let star = match node.wildcard_child {
            Some(w) => star_spec(*w, ch, pos, ch.len() + 1int),
            None => Seq::empty(),
        };
        lit + single + class + star
    }
}

/// The concatenation of `find_spec(w, ch, i)` for `lo <= i < hi`.
spec fn star_spec(w: TrieNode, ch: Seq<u8>, lo: int, hi: int) -> Seq<(Seq<u8>, ConnectionId)>
    decreases w, 1int, hi - lo,
{
    if hi <= lo {
        Seq::empty()
    } else {
        star_spec(w, ch, lo, hi - 1) + find_spec(w, ch, hi - 1)
    }
}

/// Every pattern stored in the subtree, in traversal order.
spec fn collect_spec(node: TrieNode) -> Seq<Seq<u8>>
    decreases node, 1int, 0int,
{
    subs_view(node.subscribers@).map_values(|s: (Seq<u8>, ConnectionId)| s.0)
        + collect_children(node.children@, node.children@.len() as int, node)
        + match node.wildcard_child {
            Some(w) => collect_spec(*w),
            None => Seq::empty(),
        } + match node.single_char_child {
            Some(w) => collect_spec(*w),
            None => Seq::empty(),
        } + match node.char_class_child {
            Some(cc) => collect_spec(*cc.next),
            None => Seq::empty(),
        }
}

/// The patterns collected from the first `k` literal children of `parent`.
spec fn collect_children(cs: Seq<(u8, Box<TrieNode>)>, k: int, parent: TrieNode) -> Seq<Seq<u8>>
    decreases parent, 0int, k,
{
    if k <= 0 || k > cs.len() || cs != parent.children@ {
        Seq::empty()
    } else {
        collect_children(cs, k - 1, parent) + collect_spec(*cs[k - 1].1)
    }
}


fn copy_bytes(v: &Vec<u8>) -> (r: Vec<u8>)
    ensures
        r@ == v@,
{
    let r = v.clone();
    assert(r@ =~= v@);
    r
}

/// Appends copies of `subs` to `out`.
fn extend_subs(out: &mut Vec<(Vec<u8>, ConnectionId)>, subs: &Vec<(Vec<u8>, ConnectionId)>)
    ensures
        subs_view(final(out)@) == subs_view(old(out)@) + subs_view(subs@),
{
    let ghost start = out@;
    let mut k: usize = 0;
    while k < subs.len()
        invariant
            k <= subs@.len(),
            subs_view(out@) == subs_view(start) + subs_view(subs@.take(k as int)),
        decreases subs@.len() - k,
    {
        let ghost before = out@;
        let entry = (copy_bytes(&subs[k].0), subs[k].1);
        out.push(entry);
        assert(subs@.take(k + 1) =~= subs@.take(k as int).push(subs@[k as int]));
        assert(subs_view(out@) =~= subs_view(before).push(sub_view(subs@[k as int])));
        assert(subs_view(subs@.take(k + 1)) =~= subs_view(subs@.take(k as int)).push(
            sub_view(subs@[k as int]),
        ));
        k += 1;
    }
    assert(subs@.take(k as int) =~= subs@);
}

/// The index of the literal child for byte `c`, if there is one.
fn find_lit_child(children: &Vec<(u8, Box<TrieNode>)>, c: u8) -> (r: Option<usize>)
    ensures
        match r {
            Some(i) => i < children@.len() && children@[i as int].0 == c,
            None => forall|j: int| 0 <= j < children@.len() ==> children@[j].0 != c,
        },
{
    let mut k: usize = 0;
    while k < children.len()
        invariant
            k <= children@.len(),
            forall|j: int| 0 <= j < k ==> children@[j].0 != c,
        decreases children@.len() - k,
    {
        if children[k].0 == c {
            return Some(k);
        }
        k += 1;
    }
    None
}

proof fn lemma_lit_child_at(node: TrieNode, c: u8, i: int)
    requires
        node_wf(node),
        0 <= i < node.children@.len(),
        node.children@[i].0 == c,
    ensures
        lit_child(node.children@, c) == Some(*node.children@[i].1),
{
}

proof fn lemma_lit_child_none(node: TrieNode, c: u8)
    requires
        forall|j: int| 0 <= j < node.children@.len() ==> node.children@[j].0 != c,
    ensures
        lit_child(node.children@, c) is None,
{
}

impl TrieNode {
    fn new() -> (r: Self)
        ensures
            r.children@.len() == 0,
            r.wildcard_child is None,
            r.single_char_child is None,
            r.char_class_child is None,
            r.subscribers@.len() == 0,
            node_wf(r),
    {
        TrieNode {
            children: Vec::new(),
            wildcard_child: None,
            single_char_child: None,
            char_class_child: None,
            subscribers: Vec::new(),
        }
    }
}

fn matches_char_class(c: u8, chars: &[u8], negated: bool) -> (r: bool)
    ensures
        r == class_accepts(chars@, negated, c),
{
    let mut k: usize = 0;
    let mut found = false;
    while k < chars.len() && !found
        invariant
            k <= chars@.len(),
            found ==> chars@.contains(c),
            !found ==> forall|j: int| 0 <= j < k ==> chars@[j] != c,
        decreases chars@.len() - k, if found { 0int } else { 1int },
    {
        if chars[k] == c {
            found = true;
        } else {
            k += 1;
        }
    }
    if negated {
        !found
    } else {
        found
    }
}

#[verifier::spinoff_prover]
#[verifier::rlimit(40)]
fn find_in_node(
    node: &TrieNode,
    channel: &[u8],
    pos: usize,
    matches: &mut Vec<(Vec<u8>, ConnectionId)>,
)
    requires
        node_wf(*node),
        pos <= channel@.len(),
    ensures
        subs_view(final(matches)@) == subs_view(old(matches)@) + find_spec(*node, channel@, pos as int),
    decreases *node,
{
    if pos == channel.len() {
        extend_subs(matches, &node.subscribers);
        match &node.wildcard_child {
            Some(w) => {
                extend_subs(matches, &w.subscribers);
            },
            None => {},
        }
        return;
    }
    let current_char = channel[pos];
    let ghost base = subs_view(matches@);
    match find_lit_child(&node.children, current_char) {
        Some(idx) => {
            proof {
                lemma_lit_child_at(*node, current_char, idx as int);
                assert(decreases_to!(*node => *node.children@[idx as int].1));
            }
            let child: &TrieNode = &node.children[idx].1;
            find_in_node(child, channel, pos + 1, matches);
        },
        None => {
            proof {
                lemma_lit_child_none(*node, current_char);
            }
        },
    }
    let ghost after_lit = subs_view(matches@);
    match &node.single_char_child {
        Some(single) => {
            find_in_node(single, channel, pos + 1, matches);
        },
        None => {},
    }
    let ghost after_single = subs_view(matches@);
    match &node.char_class_child {
        Some(char_class) => {
            if matches_char_class(current_char, char_class.chars.as_slice(), char_class.negated) {
                find_in_node(&char_class.next, channel, pos + 1, matches);
            }
        },
        None => {},
    }
    let ghost after_class = subs_view(matches@);
    match &node.wildcard_child {
        Some(wildcard) => {
            let mut i = pos;
            loop
                invariant_except_break
                    pos <= i <= channel@.len(),
                    subs_view(matches@) == after_class + star_spec(**wildcard, channel@, pos as int, i as int),
                invariant
                    node_wf(**wildcard),
                    decreases_to!(*node => **wildcard),
                ensures
                    subs_view(matches@) == after_class + star_spec(
                        **wildcard,
                        channel@,
                        pos as int,
                        channel@.len() + 1int,
                    ),
                decreases channel@.len() - i,
            {
                find_in_node(wildcard, channel, i, matches);
                if i == channel.len() {
                    break;
                }
                i += 1;
            }
        },
        None => {},
    }
    proof {
        let lit = match lit_child(node.children@, current_char) {
            Some(n) => find_spec(n, channel@, pos + 1),
            None => Seq::empty(),
        };
        assert(after_lit == base + lit);
        assert(subs_view(matches@) =~= base + find_spec(*node, channel@, pos as int));
    }
}


proof fn lemma_star_member(w: TrieNode, ch: Seq<u8>, lo: int, hi: int, s: (Seq<u8>, ConnectionId))
    ensures
        star_spec(w, ch, lo, hi).contains(s) <==> exists|i: int|
            lo <= i < hi && #[trigger] find_spec(w, ch, i).contains(s),
    decreases hi - lo,
{
    if hi > lo {
        lemma_star_member(w, ch, lo, hi - 1, s);
        let a = star_spec(w, ch, lo, hi - 1);
        let b = find_spec(w, ch, hi - 1);
        assert((a + b).contains(s) <==> a.contains(s) || b.contains(s)) by {
            if (a + b).contains(s) {
                let k = choose|k: int| 0 <= k < (a + b).len() && (a + b)[k] == s;
                if k < a.len() {
                    assert(a[k] == s);
                } else {
                    assert(b[k - a.len()] == s);
                }
            }
            if a.contains(s) {
                let k = choose|k: int| 0 <= k < a.len() && a[k] == s;
                assert((a + b)[k] == s);
            }
            if b.contains(s) {
                let k = choose|k: int| 0 <= k < b.len() && b[k] == s;
                assert((a + b)[k + a.len()] == s);
            }
        }
    }
}

proof fn lemma_push_contains<A>(s: Seq<A>, a: A, y: A)
    ensures
        s.push(a).contains(y) <==> s.contains(y) || y == a,
{
    if s.push(a).contains(y) {
        let k = choose|k: int| 0 <= k < s.push(a).len() && s.push(a)[k] == y;
        if k < s.len() {
            assert(s[k] == y);
        }
    }
    if s.contains(y) {
        let k = choose|k: int| 0 <= k < s.len() && s[k] == y;
        assert(s.push(a)[k] == y);
    }
    if y == a {
        assert(s.push(a)[s.len() as int] == y);
    }
}

proof fn lemma_concat_contains<A>(a: Seq<A>, b: Seq<A>, s: A)
    ensures
        (a + b).contains(s) <==> a.contains(s) || b.contains(s),
{
    if (a + b).contains(s) {
        let k = choose|k: int| 0 <= k < (a + b).len() && (a + b)[k] == s;
        if k < a.len() {
            assert(a[k] == s);
        } else {
            assert(b[k - a.len()] == s);
        }
    }
    if a.contains(s) {
        let k = choose|k: int| 0 <= k < a.len() && a[k] == s;
        assert((a + b)[k] == s);
    }
    if b.contains(s) {
        let k = choose|k: int| 0 <= k < b.len() && b[k] == s;
        assert((a + b)[k + a.len()] == s);
    }
}

/// A subscriber is reported by the search exactly when it is stored at the end
/// of some path that matches the channel.
proof fn lemma_find_member(node: TrieNode, ch: Seq<u8>, pos: int, s: (Seq<u8>, ConnectionId))
    requires
        0 <= pos <= ch.len(),
    ensures
        find_spec(node, ch, pos).contains(s) <==> exists|q: Seq<Edge>|
            #[trigger] subs_at(node, q).contains(s) && node_match(node, q, ch, pos),
    decreases node,
{
    if pos == ch.len() {
        let own = subs_view(node.subscribers@);
        let wild = match node.wildcard_child {
            Some(w) => subs_view(w.subscribers@),
            None => Seq::empty(),
        };
        lemma_concat_contains(own, wild, s);
        let q0: Seq<Edge> = Seq::empty();
        let q1: Seq<Edge> = seq![Edge::Star];
        assert(subs_at(node, q0) == own);
        assert(node_match(node, q0, ch, pos));
        if node.wildcard_child is Some {
            assert(q1.drop_first() =~= q0);
            let w = *node.wildcard_child.unwrap();
            assert(subs_at(w, q0) == wild);
            assert(subs_at(node, q1) == wild);
            assert(node_match(node, q1, ch, pos));
        }
        if exists|q: Seq<Edge>| #[trigger] subs_at(node, q).contains(s) && node_match(node, q, ch, pos) {
            let q = choose|q: Seq<Edge>| #[trigger] subs_at(node, q).contains(s) && node_match(node, q, ch, pos);
            if q.len() != 0 {
                assert(q =~= q1);
            }
        }
        if own.contains(s) {
            assert(subs_at(node, q0).contains(s));
        }
        if wild.contains(s) {
            assert(subs_at(node, q1).contains(s));
        }
    } else {
        let c = ch[pos];
        let lit = match lit_child(node.children@, c) {
            Some(n) => find_spec(n, ch, pos + 1),
            None => Seq::empty(),
        };
        let single = match node.single_char_child {
            Some(n) => find_spec(*n, ch, pos + 1),
            None => Seq::empty(),
        };
        let class = match node.char_class_child {
            Some(cc) => if class_accepts(cc.chars@, cc.negated, c) {
                find_spec(*cc.next, ch, pos + 1)
            } else {
                Seq::empty()
            },
            None => Seq::empty(),
        };
        let star = match node.wildcard_child {
            Some(w) => star_spec(*w, ch, pos, ch.len() + 1int),
            None => Seq::empty(),
        };
        assert(find_spec(node, ch, pos) == lit + single + class + star);
        lemma_concat_contains(lit + single + class, star, s);
        lemma_concat_contains(lit + single, class, s);
        lemma_concat_contains(lit, single, s);
        // Each part, as a statement about paths that start with one edge.
        match lit_child(node.children@, c) {
            Some(n) => {
                lemma_lit_child_decreases(node, c);
                lemma_find_member(n, ch, pos + 1, s);
            },
            None => {},
        }
        match node.single_char_child {
            Some(n) => {
                lemma_find_member(*n, ch, pos + 1, s);
            },
            None => {},
        }
        match node.char_class_child {
            Some(cc) => {
                lemma_find_member(*cc.next, ch, pos + 1, s);
            },
            None => {},
        }
        match node.wildcard_child {
            Some(w) => {
                lemma_star_member(*w, ch, pos, ch.len() + 1int, s);
                assert forall|i: int| pos <= i <= ch.len() implies (find_spec(*w, ch, i).contains(s)
                    <==> exists|q: Seq<Edge>|
                    #[trigger] subs_at(*w, q).contains(s) && node_match(*w, q, ch, i)) by {
                    lemma_find_member(*w, ch, i, s);
                }
            },
            None => {},
        }
        // From a reported subscriber to a matching path.
        if lit.contains(s) {
            let n = lit_child(node.children@, c).unwrap();
            let rest = choose|q: Seq<Edge>| #[trigger] subs_at(n, q).contains(s) && node_match(n, q, ch, pos + 1);
            let q = seq![Edge::Lit(c)] + rest;
            assert(q.drop_first() =~= rest);
            assert(subs_at(node, q).contains(s) && node_match(node, q, ch, pos));
        }
        if single.contains(s) {
            let n = *node.single_char_child.unwrap();
            let rest = choose|q: Seq<Edge>| #[trigger] subs_at(n, q).contains(s) && node_match(n, q, ch, pos + 1);
            let q = seq![Edge::Any] + rest;
            assert(q.drop_first() =~= rest);
            assert(subs_at(node, q).contains(s) && node_match(node, q, ch, pos));
        }
        if class.contains(s) {
            let n = *node.char_class_child.unwrap().next;
            let rest = choose|q: Seq<Edge>| #[trigger] subs_at(n, q).contains(s) && node_match(n, q, ch, pos + 1);
            let q = seq![Edge::Class] + rest;
            assert(q.drop_first() =~= rest);
            assert(subs_at(node, q).contains(s) && node_match(node, q, ch, pos));
        }
        if star.contains(s) {
            let w = *node.wildcard_child.unwrap();
            let i = choose|i: int| pos <= i < ch.len() + 1 && #[trigger] find_spec(w, ch, i).contains(s);
            let rest = choose|q: Seq<Edge>| #[trigger] subs_at(w, q).contains(s) && node_match(w, q, ch, i);
            let q = seq![Edge::Star] + rest;
            assert(q.drop_first() =~= rest);
            assert(node_match(w, q.drop_first(), ch, i));
            lemma_star_match(w, rest, ch, pos, ch.len() + 1int);
            assert(subs_at(node, q).contains(s) && node_match(node, q, ch, pos));
        }
        // From a matching path to a reported subscriber.
        if exists|q: Seq<Edge>| #[trigger] subs_at(node, q).contains(s) && node_match(node, q, ch, pos) {
            let q = choose|q: Seq<Edge>| #[trigger] subs_at(node, q).contains(s) && node_match(node, q, ch, pos);
            assert(q.len() > 0);
            let rest = q.drop_first();
            match q[0] {
                Edge::Lit(b) => {
                    let n = lit_child(node.children@, c).unwrap();
                    assert(subs_at(n, rest).contains(s) && node_match(n, rest, ch, pos + 1));
                },
                Edge::Any => {
                    let n = *node.single_char_child.unwrap();
                    assert(subs_at(n, rest).contains(s) && node_match(n, rest, ch, pos + 1));
                },
                Edge::Class => {
                    let n = *node.char_class_child.unwrap().next;
                    assert(subs_at(n, rest).contains(s) && node_match(n, rest, ch, pos + 1));
                },
                Edge::Star => {
                    let w = *node.wildcard_child.unwrap();
                    assert(node.wildcard_child is Some);
                    lemma_star_match(w, rest, ch, pos, ch.len() + 1int);
                    let i = choose|i: int| pos <= i <= ch.len() && #[trigger] node_match(w, rest, ch, i);
                    assert(subs_at(w, rest).contains(s) && node_match(w, rest, ch, i));
                    assert(find_spec(w, ch, i).contains(s));
                },
            }
        }
    }
}


pub open spec fn token_path(ts: Seq<Token>) -> Seq<Edge> {
    ts.map_values(|t: Token| edge_of(t))
}

spec fn unique_keys(cs: Seq<(u8, Box<TrieNode>)>) -> bool {
    forall|i: int, j: int| 0 <= i < j < cs.len() ==> cs[i].0 != cs[j].0
}

spec fn empty_node(n: TrieNode) -> bool {
    &&& n.children@.len() == 0
    &&& n.wildcard_child is None
    &&& n.single_char_child is None
    &&& n.char_class_child is None
    &&& n.subscribers@.len() == 0
}

proof fn lemma_lit_child_seq(cs: Seq<(u8, Box<TrieNode>)>, c: u8, k: int)
    requires
        unique_keys(cs),
        0 <= k < cs.len(),
        cs[k].0 == c,
    ensures
        lit_child(cs, c) == Some(*cs[k].1),
{
}

proof fn lemma_empty_subs(n: TrieNode, q: Seq<Edge>)
    requires
        empty_node(n),
    ensures
        subs_at(n, q) == Seq::<(Seq<u8>, ConnectionId)>::empty(),
{
    if q.len() == 0 {
        assert(subs_view(n.subscribers@) =~= Seq::<(Seq<u8>, ConnectionId)>::empty());
    }
}

proof fn lemma_tokens_step(pattern: Seq<u8>, i: int)
    requires
        0 <= i < pattern.len(),
        pattern_tokens(pattern.skip(i)) is Some,
    ensures
        first_token(pattern.skip(i)) matches Some((t, n)) && 1 <= n && i + n <= pattern.len()
            && pattern_tokens(pattern.skip(i + n)) is Some && pattern_tokens(pattern.skip(i)).unwrap()
            == seq![t] + pattern_tokens(pattern.skip(i + n)).unwrap(),
{
    let p = pattern.skip(i);
    lemma_first_token_len(p);
    let (t, n) = first_token(p).unwrap();
    assert(p.skip(n) =~= pattern.skip(i + n));
}

proof fn lemma_token_path_cons(t: Token, rest: Seq<Token>)
    ensures
        token_path(seq![t] + rest) == seq![edge_of(t)] + token_path(rest),
{
    assert(token_path(seq![t] + rest) =~= seq![edge_of(t)] + token_path(rest));
}

/// Replacing the child of `old` along edge `e` by `after`, whose stored subscribers
/// differ from those of `before` only by `sub` added at `rest`, adds `sub` at
/// `[e] + rest` and changes nothing else.
proof fn lemma_subs_after_child(
    old: TrieNode,
    new: TrieNode,
    e: Edge,
    before: TrieNode,
    after: TrieNode,
    rest: Seq<Edge>,
    sub: (Seq<u8>, ConnectionId),
)
    requires
        subs_view(new.subscribers@) == subs_view(old.subscribers@),
        child_for(new, e) == Some(after),
        child_for(old, e) == Some(before) || (child_for(old, e) is None && empty_node(before)),
        forall|e2: Edge| e2 != e ==> #[trigger] child_for(new, e2) == child_for(old, e2),
        forall|r: Seq<Edge>|
            #[trigger] subs_at(after, r) == if r == rest {
                subs_at(before, r).push(sub)
            } else {
                subs_at(before, r)
            },
    ensures
        forall|q: Seq<Edge>|
            #[trigger] subs_at(new, q) == if q == seq![e] + rest {
                subs_at(old, q).push(sub)
            } else {
                subs_at(old, q)
            },
{
    assert forall|q: Seq<Edge>|
        #[trigger] subs_at(new, q) == if q == seq![e] + rest {
            subs_at(old, q).push(sub)
        } else {
            subs_at(old, q)
        } by {
        let full = seq![e] + rest;
        if q.len() == 0 {
            assert(q != full);
        } else if q[0] == e {
            let r = q.drop_first();
            assert(subs_at(new, q) == subs_at(after, r));
            assert(subs_at(after, r) == if r == rest {
                subs_at(before, r).push(sub)
            } else {
                subs_at(before, r)
            });
            if child_for(old, e) is None {
                lemma_empty_subs(before, r);
                assert(subs_at(old, q) == subs_at(before, r));
            }
            if q == full {
                assert(r =~= rest);
            } else {
                assert(r != rest) by {
                    if r == rest {
                        assert(q =~= full);
                    }
                }
            }
        } else {
            assert(q != full);
            assert(child_for(new, q[0]) == child_for(old, q[0]));
        }
    }
}


proof fn lemma_empty_agree(n: TrieNode, ts: Seq<Token>)
    requires
        empty_node(n),
    ensures
        classes_agree(n, ts),
{
}

/// Whether every edge of `q` is present, starting at `node`.
spec fn path_in(node: TrieNode, q: Seq<Edge>) -> bool
    decreases q.len(),
{
    if q.len() == 0 {
        true
    } else {
        match child_for(node, q[0]) {
            Some(c) => path_in(c, q.drop_first()),
            None => false,
        }
    }
}

/// A path that holds a subscriber is present in the trie.
proof fn lemma_stored_path_in(node: TrieNode, q: Seq<Edge>, s: (Seq<u8>, ConnectionId))
    requires
        subs_at(node, q).contains(s),
    ensures
        path_in(node, q),
    decreases q.len(),
{
    if q.len() > 0 {
        match child_for(node, q[0]) {
            Some(c) => lemma_stored_path_in(c, q.drop_first(), s),
            None => {},
        }
    }
}

/// Replacing the child of `a` along `e` by `cb`, which matches like the old
/// child along every path the old child had, while keeping every other edge
/// and the class bytes, keeps how every path of `a` matches.
proof fn lemma_match_after_insert(a: TrieNode, b: TrieNode, e: Edge, cb: TrieNode)
    requires
        child_for(b, e) == Some(cb),
        forall|e2: Edge| e2 != e ==> #[trigger] child_for(a, e2) == child_for(b, e2),
        a.char_class_child is Some ==> b.char_class_child is Some
            && b.char_class_child.unwrap().chars@ == a.char_class_child.unwrap().chars@
            && b.char_class_child.unwrap().negated == a.char_class_child.unwrap().negated,
        child_for(a, e) is Some ==> forall|r: Seq<Edge>, ch: Seq<u8>, pos: int|
            path_in(child_for(a, e).unwrap(), r) ==> #[trigger] node_match(cb, r, ch, pos)
                == node_match(child_for(a, e).unwrap(), r, ch, pos),
    ensures
        forall|q: Seq<Edge>, ch: Seq<u8>, pos: int|
            path_in(a, q) ==> #[trigger] node_match(b, q, ch, pos) == node_match(a, q, ch, pos),
{
    assert forall|q: Seq<Edge>, ch: Seq<u8>, pos: int|
        path_in(a, q) implies #[trigger] node_match(b, q, ch, pos) == node_match(a, q, ch, pos) by {
        if q.len() > 0 {
            let r = q.drop_first();
            let ca = child_for(a, q[0]).unwrap();
            assert(path_in(ca, r));
            if q[0] == e {
                assert(forall|p2: int| #[trigger] node_match(cb, r, ch, p2) == node_match(ca, r, ch, p2));
            }
            if pos < ch.len() {
                match q[0] {
                    Edge::Star => {
                        let wa = *a.wildcard_child.unwrap();
                        let wb = *b.wildcard_child.unwrap();
                        assert forall|p2: int| #[trigger] node_match(wa, r, ch, p2) == node_match(wb, r, ch, p2) by {
                            if q[0] == e {
                                assert(node_match(cb, r, ch, p2) == node_match(ca, r, ch, p2));
                            }
                        }
                        lemma_star_match_same(wa, wb, r, ch, pos, ch.len() + 1int);
                    },
                    Edge::Lit(c) => {
                        if q[0] == e {
                            assert(node_match(cb, r, ch, pos + 1) == node_match(ca, r, ch, pos + 1));
                        } else {
                            assert(child_for(a, q[0]) == child_for(b, q[0]));
                        }
                    },
                    Edge::Any => {
                        if q[0] == e {
                            assert(node_match(cb, r, ch, pos + 1) == node_match(ca, r, ch, pos + 1));
                        } else {
                            assert(child_for(a, q[0]) == child_for(b, q[0]));
                        }
                    },
                    Edge::Class => {
                        if q[0] == e {
                            assert(node_match(cb, r, ch, pos + 1) == node_match(ca, r, ch, pos + 1));
                        } else {
                            assert(child_for(a, q[0]) == child_for(b, q[0]));
                        }
                    },
                }
            } else {
                assert(child_for(a, Edge::Star) is Some ==> child_for(b, Edge::Star) is Some);
            }
        }
    }
}

/// Whether two token sequences put different classes at one place of the
/// trie: along the same edges so far, one has a class where the other has
/// another class.
pub open spec fn class_clash(ts: Seq<Token>, ts2: Seq<Token>) -> bool
    decreases ts.len(),
{
    if ts.len() == 0 || ts2.len() == 0 {
        false
    } else if edge_of(ts[0]) != edge_of(ts2[0]) {
        false
    } else {
        (ts[0] is Class && ts[0] != ts2[0]) || class_clash(ts.drop_first(), ts2.drop_first())
    }
}

/// Replacing or creating the child of `old` along the edge of token `t`, where
/// the new child agrees with the old one on every token sequence but those
/// clashing with `rest`, keeps every agreement but those clashing with
/// `[t] + rest`.
proof fn lemma_agree_after_insert(
    old: TrieNode,
    new: TrieNode,
    t: Token,
    rest: Seq<Token>,
    before: TrieNode,
    after: TrieNode,
)
    requires
        child_for(new, edge_of(t)) == Some(after),
        child_for(old, edge_of(t)) == Some(before) || (child_for(old, edge_of(t)) is None && empty_node(before)),
        forall|e2: Edge| e2 != edge_of(t) ==> #[trigger] child_for(new, e2) == child_for(old, e2),
        !(t is Class) ==> new.char_class_child == old.char_class_child,
        t is Class && old.char_class_child is Some ==> new.char_class_child.unwrap().chars@
            == old.char_class_child.unwrap().chars@ && new.char_class_child.unwrap().negated
            == old.char_class_child.unwrap().negated,
        t is Class && old.char_class_child is None ==> t == Token::Class(
            new.char_class_child.unwrap().chars@,
            new.char_class_child.unwrap().negated,
        ),
        forall|r2: Seq<Token>|
            #[trigger] classes_agree(after, r2) == classes_agree(before, r2) || class_clash(rest, r2),
    ensures
        forall|ts2: Seq<Token>|
            #[trigger] classes_agree(new, ts2) == classes_agree(old, ts2) || class_clash(seq![t] + rest, ts2),
{
    let ts = seq![t] + rest;
    assert(ts[0] == t);
    assert(ts.drop_first() =~= rest);
    assert forall|ts2: Seq<Token>|
        #[trigger] classes_agree(new, ts2) == classes_agree(old, ts2) || class_clash(ts, ts2) by {
        if ts2.len() > 0 {
            let r2 = ts2.drop_first();
            let e2 = edge_of(ts2[0]);
            if e2 == edge_of(t) {
                assert(classes_agree(after, r2) == classes_agree(before, r2) || class_clash(rest, r2));
                if child_for(old, e2) is None {
                    lemma_empty_agree(before, r2);
                }
            } else {
                assert(child_for(new, e2) == child_for(old, e2));
            }
        }
    }
}

/// The facts about one level of an insertion that the caller's contract needs.
spec fn inserted_below(
    old: TrieNode,
    new: TrieNode,
    ts: Seq<Token>,
    sub: (Seq<u8>, ConnectionId),
) -> bool {
    &&& node_wf(new)
    &&& forall|q: Seq<Edge>|
        #[trigger] subs_at(new, q) == if q == token_path(ts) {
            subs_at(old, q).push(sub)
        } else {
            subs_at(old, q)
        }
    &&& classes_agree(new, ts) == classes_agree(old, ts)
    &&& forall|ts2: Seq<Token>|
        #[trigger] classes_agree(new, ts2) == classes_agree(old, ts2) || class_clash(ts, ts2)
    &&& forall|q: Seq<Edge>, ch: Seq<u8>, pos: int|
        path_in(old, q) ==> #[trigger] node_match(new, q, ch, pos) == node_match(old, q, ch, pos)
}

/// Adds `(pattern, conn_id)` at the end of the path of the tokens of
/// `pattern[i..]`, creating missing nodes; a created class node takes the
/// class of the pattern.
fn insert_rec(node: &mut TrieNode, pattern: &[u8], i: usize, conn_id: ConnectionId)
    requires
        node_wf(*old(node)),
        i <= pattern@.len(),
        pattern_tokens(pattern@.skip(i as int)) is Some,
    ensures
        inserted_below(
            *old(node),
            *final(node),
            pattern_tokens(pattern@.skip(i as int)).unwrap(),
            (pattern@, conn_id),
        ),
    decreases pattern@.len() - i, 1int,
{
    let ghost old_node = *node;
    let ghost sub = (pattern@, conn_id);
    if i == pattern.len() {
        let ghost ts = pattern_tokens(pattern@.skip(i as int)).unwrap();
        assert(pattern@.skip(i as int) =~= Seq::<u8>::empty());
        assert(ts.len() == 0);
        node.subscribers.push((slice_to_vec(pattern), conn_id));
        proof {
            assert(subs_view(node.subscribers@) =~= subs_view(old_node.subscribers@).push(sub));
            assert(token_path(ts) =~= Seq::<Edge>::empty());
            assert forall|q: Seq<Edge>|
                #[trigger] subs_at(*node, q) == if q == token_path(ts) {
                    subs_at(old_node, q).push(sub)
                } else {
                    subs_at(old_node, q)
                } by {
                if q.len() > 0 {
                    assert(child_for(*node, q[0]) == child_for(old_node, q[0]));
                    assert(subs_at(*node, q) == subs_at(old_node, q));
                    assert(q != token_path(ts));
                } else {
                    assert(q =~= token_path(ts));
                }
            }
            assert forall|q: Seq<Edge>, ch: Seq<u8>, pos: int|
                path_in(old_node, q) implies #[trigger] node_match(*node, q, ch, pos) == node_match(
                    old_node,
                    q,
                    ch,
                    pos,
                ) by {}
            assert forall|ts2: Seq<Token>| #[trigger] classes_agree(*node, ts2) == classes_agree(old_node, ts2) by {
                if ts2.len() > 0 {
                    assert(child_for(*node, edge_of(ts2[0])) == child_for(old_node, edge_of(ts2[0])));
                }
            }
        }
        return;
    }
    proof {
        lemma_tokens_step(pattern@, i as int);
    }
    let ghost (t, n) = first_token(pattern@.skip(i as int)).unwrap();
    let ghost rest_ts = pattern_tokens(pattern@.skip(i + n)).unwrap();
    let ghost ts = pattern_tokens(pattern@.skip(i as int)).unwrap();
    proof {
        lemma_token_path_cons(t, rest_ts);
        assert(ts.drop_first() =~= rest_ts);
    }
    let b = pattern[i];
    if b == 0x2au8 {
        if node.wildcard_child.is_none() {
            node.wildcard_child = Some(Box::new(TrieNode::new()));
        }
        let ghost mid = *node;
        let mut child = node.wildcard_child.take().unwrap();
        let ghost before = *child;
        insert_rec(&mut child, pattern, i + 1, conn_id);
        node.wildcard_child = Some(child);
        proof {
            if old_node.wildcard_child is None {
                lemma_empty_agree(before, rest_ts);
            }
            assert forall|e2: Edge| e2 != Edge::Star implies #[trigger] child_for(*node, e2) == child_for(
                old_node,
                e2,
            ) by {}
            lemma_subs_after_child(old_node, *node, Edge::Star, before, *child, token_path(rest_ts), sub);
            if old_node.wildcard_child is Some {
                assert(child_for(old_node, Edge::Star) == Some(before));
            }
            lemma_match_after_insert(old_node, *node, Edge::Star, *child);
            lemma_agree_after_insert(old_node, *node, t, rest_ts, before, *child);
        }
    } else if b == 0x3fu8 {
        if node.single_char_child.is_none() {
            node.single_char_child = Some(Box::new(TrieNode::new()));
        }
        let mut child = node.single_char_child.take().unwrap();
        let ghost before = *child;
        insert_rec(&mut child, pattern, i + 1, conn_id);
        node.single_char_child = Some(child);
        proof {
            if old_node.single_char_child is None {
                lemma_empty_agree(before, rest_ts);
            }
            assert forall|e2: Edge| e2 != Edge::Any implies #[trigger] child_for(*node, e2) == child_for(
                old_node,
                e2,
            ) by {}
            lemma_subs_after_child(old_node, *node, Edge::Any, before, *child, token_path(rest_ts), sub);
            if old_node.single_char_child is Some {
                assert(child_for(old_node, Edge::Any) == Some(before));
            }
            lemma_match_after_insert(old_node, *node, Edge::Any, *child);
            lemma_agree_after_insert(old_node, *node, t, rest_ts, before, *child);
        }
    } else if b == 0x5bu8 {
        let (char_class, next_i) = parse_char_class(&pattern[i..pattern.len()]);
        proof {
            assert(pattern@.subrange(i as int, pattern@.len() as int) =~= pattern@.skip(i as int));
        }
        match char_class {
            Some((chars, negated)) => {
                let ghost class_exists = node.char_class_child is Some;
                if node.char_class_child.is_none() {
                    node.char_class_child = Some(
                        Box::new(CharClassNode { chars, negated, next: Box::new(TrieNode::new()) }),
                    );
                }
                let mut cc = node.char_class_child.take().unwrap();
                let ghost before = *cc.next;
                let ghost cc_chars = cc.chars@;
                let ghost cc_negated = cc.negated;
                insert_rec(&mut cc.next, pattern, i + next_i, conn_id);
                node.char_class_child = Some(cc);
                proof {
                    if old_node.char_class_child is None {
                        lemma_empty_agree(before, rest_ts);
                    }
                    assert forall|e2: Edge| e2 != Edge::Class implies #[trigger] child_for(
                        *node,
                        e2,
                    ) == child_for(old_node, e2) by {}
                    lemma_subs_after_child(
                        old_node,
                        *node,
                        Edge::Class,
                        before,
                        *cc.next,
                        token_path(rest_ts),
                        sub,
                    );
                    if class_exists {
                        assert(child_for(old_node, Edge::Class) == Some(before));
                        assert(cc.chars@ == cc_chars);
                    }
                    lemma_match_after_insert(old_node, *node, Edge::Class, *cc.next);
                    lemma_agree_after_insert(old_node, *node, t, rest_ts, before, *cc.next);
                }
            },
            None => {
                insert_lit(node, 0x5bu8, pattern, i + 1, conn_id);
            },
        }
    } else if b == 0x5cu8 && i + 1 < pattern.len() {
        insert_lit(node, pattern[i + 1], pattern, i + 2, conn_id);
    } else {
        insert_lit(node, b, pattern, i + 1, conn_id);
    }
}

/// Continues an insertion below the literal child for byte `c`, creating it
/// if missing; the rest of the pattern starts at `next`.
fn insert_lit(node: &mut TrieNode, c: u8, pattern: &[u8], next: usize, conn_id: ConnectionId)
    requires
        node_wf(*old(node)),
        1 <= next <= pattern@.len(),
        pattern_tokens(pattern@.skip(next as int)) is Some,
    ensures
        inserted_below(
            *old(node),
            *final(node),
            seq![Token::Lit(c)] + pattern_tokens(pattern@.skip(next as int)).unwrap(),
            (pattern@, conn_id),
        ),
    decreases pattern@.len() - next + 1, 0int,
{
    let ghost old_node = *node;
    let ghost cs0 = node.children@;
    let ghost sub = (pattern@, conn_id);
    let ghost rest_ts = pattern_tokens(pattern@.skip(next as int)).unwrap();
    let ghost ts = seq![Token::Lit(c)] + rest_ts;
    proof {
        lemma_token_path_cons(Token::Lit(c), rest_ts);
        assert(ts.drop_first() =~= rest_ts);
        assert(ts[0] == Token::Lit(c));
    }
    let found = find_lit_child(&node.children, c);
    let idx = match found {
        Some(k) => k,
        None => {
            node.children.push((c, Box::new(TrieNode::new())));
            node.children.len() - 1
        },
    };
    let ghost cs1 = node.children@;
    proof {
        assert(unique_keys(cs1));
        assert(forall|j: int| 0 <= j < cs1.len() ==> node_wf(*#[trigger] cs1[j].1));
    }
    let (key, mut child) = node.children.remove(idx);
    let ghost before = *child;
    insert_rec(&mut child, pattern, next, conn_id);
    let ghost after = *child;
    node.children.insert(idx, (key, child));
    proof {
        let cs2 = node.children@;
        assert(cs2 =~= cs1.update(idx as int, (key, child)));
        assert(unique_keys(cs2));
        lemma_lit_child_seq(cs2, c, idx as int);
        assert(child_for(*node, Edge::Lit(c)) == Some(after));
        if found is Some {
            lemma_lit_child_seq(cs0, c, idx as int);
            assert(child_for(old_node, Edge::Lit(c)) == Some(before));
        } else {
            assert(child_for(old_node, Edge::Lit(c)) is None);
        }
        assert forall|e2: Edge| e2 != Edge::Lit(c) implies #[trigger] child_for(*node, e2) == child_for(
            old_node,
            e2,
        ) by {
            if let Edge::Lit(d) = e2 {
                if exists|j: int| 0 <= j < cs0.len() && cs0[j].0 == d {
                    let j = choose|j: int| 0 <= j < cs0.len() && cs0[j].0 == d;
                    lemma_lit_child_seq(cs0, d, j);
                    assert(j != idx);
                    lemma_lit_child_seq(cs2, d, j);
                } else {
                    assert forall|j: int| 0 <= j < cs2.len() implies cs2[j].0 != d by {
                        if j != idx {
                            assert(cs2[j] == cs0[j]);
                        }
                    }
                }
            }
        }
        lemma_subs_after_child(old_node, *node, Edge::Lit(c), before, after, token_path(rest_ts), sub);
        assert forall|j: int| 0 <= j < cs2.len() implies node_wf(*#[trigger] cs2[j].1) by {
            if j != idx {
                assert(cs2[j] == cs1[j]);
            }
        }
        if found is None {
            lemma_empty_agree(before, rest_ts);
        }
        lemma_match_after_insert(old_node, *node, Edge::Lit(c), after);
        lemma_agree_after_insert(old_node, *node, Token::Lit(c), rest_ts, before, after);
    }
}


pub open spec fn not_sub(target: (Seq<u8>, ConnectionId)) -> spec_fn((Seq<u8>, ConnectionId)) -> bool {
    |x: (Seq<u8>, ConnectionId)| x != target
}

fn bytes_equal(a: &[u8], b: &[u8]) -> (r: bool)
    ensures
        r == (a@ == b@),
{
    if a.len() != b.len() {
        return false;
    }
    let mut k: usize = 0;
    while k < a.len()
        invariant
            a@.len() == b@.len(),
            k <= a@.len(),
            forall|j: int| 0 <= j < k ==> a@[j] == b@[j],
        decreases a@.len() - k,
    {
        if a[k] != b[k] {
            return false;
        }
        k += 1;
    }
    assert(a@ =~= b@);
    true
}

/// Drops every `(pattern, conn_id)` entry; tells whether there was one.
fn retain_others(subs: &mut Vec<(Vec<u8>, ConnectionId)>, pattern: &[u8], conn_id: ConnectionId) -> (r: bool)
    ensures
        subs_view(final(subs)@) == subs_view(old(subs)@).filter(not_sub((pattern@, conn_id))),
        r == subs_view(old(subs)@).contains((pattern@, conn_id)),
{
    let ghost target = (pattern@, conn_id);
    let ghost all = subs_view(subs@);
    let mut kept: Vec<(Vec<u8>, ConnectionId)> = Vec::new();
    let mut removed = false;
    let mut k: usize = 0;
    while k < subs.len()
        invariant
            k <= subs@.len(),
            all == subs_view(subs@),
            target == (pattern@, conn_id),
            subs_view(kept@) == all.take(k as int).filter(not_sub(target)),
            removed == all.take(k as int).contains(target),
        decreases subs@.len() - k,
    {
        let ghost prev = all.take(k as int);
        let id_same = subs[k].1 == conn_id;
        let bytes_same = bytes_equal(subs[k].0.as_slice(), pattern);
        let same = id_same && bytes_same;
        assert(all[k as int] == sub_view(subs@[k as int]));
        assert(bytes_same == (subs@[k as int].0@ == pattern@));
        assert(id_same == (subs@[k as int].1 == conn_id));
        assert(all[k as int].0 == subs@[k as int].0@ && all[k as int].1 == subs@[k as int].1);
        assert((all[k as int] == target) == (all[k as int].0 == target.0 && all[k as int].1 == target.1));
        assert(same == (all[k as int] == target));
        assert(all.take(k + 1).drop_last() =~= prev);
        assert(all.take(k + 1).last() == all[k as int]);
        proof {
            reveal(Seq::filter);
        }
        if same {
            removed = true;
        } else {
            let ghost before = kept@;
            kept.push((copy_bytes(&subs[k].0), subs[k].1));
            assert(subs_view(kept@) =~= subs_view(before).push(all[k as int]));
        }
        proof {
            let cur = all.take(k + 1);
            if cur.contains(target) && !prev.contains(target) {
                let j = choose|j: int| 0 <= j < cur.len() && #[trigger] cur[j] == target;
                if j < k {
                    assert(prev[j] == target);
                }
            }
            if prev.contains(target) {
                let j = choose|j: int| 0 <= j < prev.len() && prev[j] == target;
                assert(cur[j] == target);
            }
            if same {
                assert(cur[k as int] == target);
            }
        }
        k += 1;
    }
    assert(all.take(k as int) =~= all);
    *subs = kept;
    removed
}

proof fn lemma_subs_after_child_general(
    old: TrieNode,
    new: TrieNode,
    e: Edge,
    before: TrieNode,
    after: TrieNode,
    rest: Seq<Edge>,
    x: Seq<(Seq<u8>, ConnectionId)>,
)
    requires
        subs_view(new.subscribers@) == subs_view(old.subscribers@),
        child_for(new, e) == Some(after),
        child_for(old, e) == Some(before),
        forall|e2: Edge| e2 != e ==> #[trigger] child_for(new, e2) == child_for(old, e2),
        forall|r: Seq<Edge>|
            #[trigger] subs_at(after, r) == if r == rest {
                x
            } else {
                subs_at(before, r)
            },
    ensures
        forall|q: Seq<Edge>|
            #[trigger] subs_at(new, q) == if q == seq![e] + rest {
                x
            } else {
                subs_at(old, q)
            },
{
    assert forall|q: Seq<Edge>|
        #[trigger] subs_at(new, q) == if q == seq![e] + rest {
            x
        } else {
            subs_at(old, q)
        } by {
        let full = seq![e] + rest;
        if q.len() == 0 {
            assert(q != full);
        } else if q[0] == e {
            let r = q.drop_first();
            assert(subs_at(new, q) == subs_at(after, r));
            assert(subs_at(after, r) == if r == rest {
                x
            } else {
                subs_at(before, r)
            });
            if q == full {
                assert(r =~= rest);
            } else {
                assert(r != rest) by {
                    if r == rest {
                        assert(q =~= full);
                    }
                }
            }
        } else {
            assert(q != full);
            assert(child_for(new, q[0]) == child_for(old, q[0]));
        }
    }
}

/// `a` and `b` have the same edges and class bytes at the top level, except
/// that their children along `e` are `ca` and `cb`.
spec fn same_top_except(a: TrieNode, b: TrieNode, e: Edge, ca: TrieNode, cb: TrieNode) -> bool {
    &&& child_for(a, e) == Some(ca)
    &&& child_for(b, e) == Some(cb)
    &&& forall|e2: Edge| e2 != e ==> #[trigger] child_for(a, e2) == child_for(b, e2)
    &&& (a.char_class_child is Some <==> b.char_class_child is Some)
    &&& a.char_class_child is Some ==> a.char_class_child.unwrap().chars@
        == b.char_class_child.unwrap().chars@ && a.char_class_child.unwrap().negated
        == b.char_class_child.unwrap().negated
}

proof fn lemma_star_match_same(w1: TrieNode, w2: TrieNode, rest: Seq<Edge>, ch: Seq<u8>, lo: int, hi: int)
    requires
        forall|pos: int| #[trigger] node_match(w1, rest, ch, pos) == node_match(w2, rest, ch, pos),
    ensures
        star_match(w1, rest, ch, lo, hi) == star_match(w2, rest, ch, lo, hi),
    decreases hi - lo,
{
    if hi > lo {
        lemma_star_match_same(w1, w2, rest, ch, lo, hi - 1);
        assert(node_match(w1, rest, ch, hi - 1) == node_match(w2, rest, ch, hi - 1));
    }
}

proof fn lemma_match_after_child(a: TrieNode, b: TrieNode, e: Edge, ca: TrieNode, cb: TrieNode)
    requires
        same_top_except(a, b, e, ca, cb),
        forall|r: Seq<Edge>, ch: Seq<u8>, pos: int| #[trigger] node_match(ca, r, ch, pos) == node_match(cb, r, ch, pos),
    ensures
        forall|q: Seq<Edge>, ch: Seq<u8>, pos: int| #[trigger] node_match(a, q, ch, pos) == node_match(b, q, ch, pos),
{
    assert forall|q: Seq<Edge>, ch: Seq<u8>, pos: int| #[trigger] node_match(a, q, ch, pos) == node_match(b, q, ch, pos) by {
        if q.len() > 0 && pos < ch.len() {
            let r = q.drop_first();
            let (x, y) = (child_for(a, q[0]), child_for(b, q[0]));
            match q[0] {
                Edge::Star => {
                    assert(x == y || (x == Some(ca) && y == Some(cb)));
                    if a.wildcard_child is Some {
                        let wa = *a.wildcard_child.unwrap();
                        let wb = *b.wildcard_child.unwrap();
                        assert forall|p2: int| #[trigger] node_match(wa, r, ch, p2) == node_match(wb, r, ch, p2) by {
                            if q[0] == e {
                                assert(node_match(ca, r, ch, p2) == node_match(cb, r, ch, p2));
                            }
                        }
                        lemma_star_match_same(wa, wb, r, ch, pos, ch.len() + 1int);
                    }
                },
                Edge::Lit(c) => {
                    if q[0] == e {
                        assert(node_match(ca, r, ch, pos + 1) == node_match(cb, r, ch, pos + 1));
                    }
                },
                Edge::Any => {
                    if q[0] == e {
                        assert(node_match(ca, r, ch, pos + 1) == node_match(cb, r, ch, pos + 1));
                    }
                },
                Edge::Class => {
                    if q[0] == e {
                        assert(node_match(ca, r, ch, pos + 1) == node_match(cb, r, ch, pos + 1));
                    }
                },
            }
        } else if q.len() > 0 {
            assert(child_for(a, Edge::Star) is Some <==> child_for(b, Edge::Star) is Some);
        }
    }
}


proof fn lemma_agree_after_child(a: TrieNode, b: TrieNode, e: Edge, ca: TrieNode, cb: TrieNode)
    requires
        same_top_except(a, b, e, ca, cb),
        forall|ts: Seq<Token>| #[trigger] classes_agree(ca, ts) == classes_agree(cb, ts),
    ensures
        forall|ts: Seq<Token>| #[trigger] classes_agree(a, ts) == classes_agree(b, ts),
{
    assert forall|ts: Seq<Token>| #[trigger] classes_agree(a, ts) == classes_agree(b, ts) by {
        if ts.len() > 0 {
            let r = ts.drop_first();
            if edge_of(ts[0]) == e {
                assert(classes_agree(ca, r) == classes_agree(cb, r));
            } else {
                assert(child_for(a, edge_of(ts[0])) == child_for(b, edge_of(ts[0])));
            }
        }
    }
}

/// What removing `target` at the end of path `q0` below a node guarantees.
spec fn removed_below(
    old: TrieNode,
    new: TrieNode,
    q0: Seq<Edge>,
    target: (Seq<u8>, ConnectionId),
    r: bool,
) -> bool {
    &&& node_wf(new)
    &&& r == subs_at(old, q0).contains(target)
    &&& forall|q: Seq<Edge>|
        #[trigger] subs_at(new, q) == if q == q0 {
            subs_at(old, q).filter(not_sub(target))
        } else {
            subs_at(old, q)
        }
    &&& forall|q: Seq<Edge>, ch: Seq<u8>, pos: int| #[trigger]
        node_match(new, q, ch, pos) == node_match(old, q, ch, pos)
    &&& forall|ts: Seq<Token>| #[trigger] classes_agree(new, ts) == classes_agree(old, ts)
}

proof fn lemma_absent_removal(node: TrieNode, q0: Seq<Edge>, target: (Seq<u8>, ConnectionId))
    requires
        node_wf(node),
        subs_at(node, q0).len() == 0,
    ensures
        removed_below(node, node, q0, target, false),
{
    reveal(Seq::filter);
    assert(subs_at(node, q0).filter(not_sub(target)) =~= subs_at(node, q0));
}

/// Removes every `(full_pattern, conn_id)` stored at the end of the path of the
/// tokens of `pattern[pos..]`; tells whether there was one.
fn remove_from_node(
    node: &mut TrieNode,
    pattern: &[u8],
    pos: usize,
    full_pattern: &[u8],
    conn_id: ConnectionId,
) -> (r: bool)
    requires
        node_wf(*old(node)),
        pos <= pattern@.len(),
        pattern_tokens(pattern@.skip(pos as int)) is Some,
    ensures
        removed_below(
            *old(node),
            *final(node),
            token_path(pattern_tokens(pattern@.skip(pos as int)).unwrap()),
            (full_pattern@, conn_id),
            r,
        ),
    decreases pattern@.len() - pos, 1int,
{
    let ghost old_node = *node;
    let ghost target = (full_pattern@, conn_id);
    if pos == pattern.len() {
        let ghost ts = pattern_tokens(pattern@.skip(pos as int)).unwrap();
        assert(pattern@.skip(pos as int) =~= Seq::<u8>::empty());
        assert(token_path(ts) =~= Seq::<Edge>::empty());
        let removed = retain_others(&mut node.subscribers, full_pattern, conn_id);
        proof {
            assert forall|q: Seq<Edge>|
                #[trigger] subs_at(*node, q) == if q == token_path(ts) {
                    subs_at(old_node, q).filter(not_sub(target))
                } else {
                    subs_at(old_node, q)
                } by {
                if q.len() > 0 {
                    assert(child_for(*node, q[0]) == child_for(old_node, q[0]));
                    assert(subs_at(*node, q) == subs_at(old_node, q));
                    assert(q != token_path(ts));
                } else {
                    assert(q =~= token_path(ts));
                }
            }
            assert forall|q: Seq<Edge>, ch: Seq<u8>, p: int| #[trigger]
                node_match(*node, q, ch, p) == node_match(old_node, q, ch, p) by {}
            assert forall|ts2: Seq<Token>| #[trigger]
                classes_agree(*node, ts2) == classes_agree(old_node, ts2) by {
                if ts2.len() > 0 {
                    assert(child_for(*node, edge_of(ts2[0])) == child_for(old_node, edge_of(ts2[0])));
                }
            }
        }
        return removed;
    }
    proof {
        lemma_tokens_step(pattern@, pos as int);
    }
    let ghost (t, n) = first_token(pattern@.skip(pos as int)).unwrap();
    let ghost rest_ts = pattern_tokens(pattern@.skip(pos + n)).unwrap();
    let ghost ts = pattern_tokens(pattern@.skip(pos as int)).unwrap();
    proof {
        lemma_token_path_cons(t, rest_ts);
    }
    let ghost rest_path = token_path(rest_ts);
    let b = pattern[pos];
    if b == 0x2au8 {
        if node.wildcard_child.is_none() {
            proof {
                lemma_absent_removal(old_node, token_path(ts), target);
            }
            return false;
        }
        let mut child = node.wildcard_child.take().unwrap();
        let ghost before = *child;
        let removed = remove_from_node(&mut child, pattern, pos + 1, full_pattern, conn_id);
        node.wildcard_child = Some(child);
        proof {
            assert forall|e2: Edge| e2 != Edge::Star implies #[trigger] child_for(*node, e2) == child_for(
                old_node,
                e2,
            ) by {}
            lemma_subs_after_child_general(old_node, *node, Edge::Star, before, *child, rest_path,
                subs_at(before, rest_path).filter(not_sub(target)));
            lemma_match_after_child(*node, old_node, Edge::Star, *child, before);
            lemma_agree_after_child(*node, old_node, Edge::Star, *child, before);
            assert(token_path(ts).drop_first() =~= rest_path);
            assert(subs_at(old_node, token_path(ts)) == subs_at(before, rest_path));
        }
        removed
    } else if b == 0x3fu8 {
        if node.single_char_child.is_none() {
            proof {
                lemma_absent_removal(old_node, token_path(ts), target);
            }
            return false;
        }
        let mut child = node.single_char_child.take().unwrap();
        let ghost before = *child;
        let removed = remove_from_node(&mut child, pattern, pos + 1, full_pattern, conn_id);
        node.single_char_child = Some(child);
        proof {
            assert forall|e2: Edge| e2 != Edge::Any implies #[trigger] child_for(*node, e2) == child_for(
                old_node,
                e2,
            ) by {}
            lemma_subs_after_child_general(old_node, *node, Edge::Any, before, *child, rest_path,
                subs_at(before, rest_path).filter(not_sub(target)));
            lemma_match_after_child(*node, old_node, Edge::Any, *child, before);
            lemma_agree_after_child(*node, old_node, Edge::Any, *child, before);
            assert(token_path(ts).drop_first() =~= rest_path);
            assert(subs_at(old_node, token_path(ts)) == subs_at(before, rest_path));
        }
        removed
    } else if b == 0x5bu8 {
        let (char_class, next_i) = parse_char_class(&pattern[pos..pattern.len()]);
        proof {
            assert(pattern@.subrange(pos as int, pattern@.len() as int) =~= pattern@.skip(pos as int));
        }
        if char_class.is_some() {
            if node.char_class_child.is_none() {
                proof {
                    lemma_absent_removal(old_node, token_path(ts), target);
                }
                return false;
            }
            let mut cc = node.char_class_child.take().unwrap();
            let ghost before = *cc.next;
            let removed = remove_from_node(&mut cc.next, pattern, pos + next_i, full_pattern, conn_id);
            node.char_class_child = Some(cc);
            proof {
                assert forall|e2: Edge| e2 != Edge::Class implies #[trigger] child_for(
                    *node,
                    e2,
                ) == child_for(old_node, e2) by {}
                lemma_subs_after_child_general(old_node, *node, Edge::Class, before, *cc.next,
                    rest_path, subs_at(before, rest_path).filter(not_sub(target)));
                lemma_match_after_child(*node, old_node, Edge::Class, *cc.next, before);
                lemma_agree_after_child(*node, old_node, Edge::Class, *cc.next, before);
                assert(token_path(ts).drop_first() =~= rest_path);
                assert(subs_at(old_node, token_path(ts)) == subs_at(before, rest_path));
            }
            removed
        } else {
            remove_lit(node, 0x5bu8, pattern, pos + 1, full_pattern, conn_id)
        }
    } else if b == 0x5cu8 && pos + 1 < pattern.len() {
        remove_lit(node, pattern[pos + 1], pattern, pos + 2, full_pattern, conn_id)
    } else {
        remove_lit(node, b, pattern, pos + 1, full_pattern, conn_id)
    }
}

/// Continues a removal below the literal child for byte `c`, if there is one.
fn remove_lit(
    node: &mut TrieNode,
    c: u8,
    pattern: &[u8],
    next: usize,
    full_pattern: &[u8],
    conn_id: ConnectionId,
) -> (r: bool)
    requires
        node_wf(*old(node)),
        1 <= next <= pattern@.len(),
        pattern_tokens(pattern@.skip(next as int)) is Some,
    ensures
        removed_below(
            *old(node),
            *final(node),
            token_path(seq![Token::Lit(c)] + pattern_tokens(pattern@.skip(next as int)).unwrap()),
            (full_pattern@, conn_id),
            r,
        ),
    decreases pattern@.len() - next + 1, 0int,
{
    let ghost old_node = *node;
    let ghost cs0 = node.children@;
    let ghost target = (full_pattern@, conn_id);
    let ghost rest_ts = pattern_tokens(pattern@.skip(next as int)).unwrap();
    let ghost rest_path = token_path(rest_ts);
    proof {
        lemma_token_path_cons(Token::Lit(c), rest_ts);
    }
    let idx = match find_lit_child(&node.children, c) {
        Some(k) => k,
        None => {
            proof {
                assert(child_for(old_node, Edge::Lit(c)) is None);
                lemma_absent_removal(old_node, token_path(seq![Token::Lit(c)] + rest_ts), target);
            }
            return false;
        },
    };
    let (key, mut child) = node.children.remove(idx);
    let ghost before = *child;
    let removed = remove_from_node(&mut child, pattern, next, full_pattern, conn_id);
    let ghost after = *child;
    node.children.insert(idx, (key, child));
    proof {
        let cs2 = node.children@;
        assert(cs2 =~= cs0.update(idx as int, (key, child)));
        assert(unique_keys(cs2));
        lemma_lit_child_seq(cs2, c, idx as int);
        lemma_lit_child_seq(cs0, c, idx as int);
        assert forall|e2: Edge| e2 != Edge::Lit(c) implies #[trigger] child_for(*node, e2) == child_for(
            old_node,
            e2,
        ) by {
            if let Edge::Lit(d) = e2 {
                if exists|j: int| 0 <= j < cs0.len() && cs0[j].0 == d {
                    let j = choose|j: int| 0 <= j < cs0.len() && cs0[j].0 == d;
                    lemma_lit_child_seq(cs0, d, j);
                    assert(j != idx);
                    lemma_lit_child_seq(cs2, d, j);
                } else {
                    assert forall|j: int| 0 <= j < cs2.len() implies cs2[j].0 != d by {
                        if j != idx {
                            assert(cs2[j] == cs0[j]);
                        }
                    }
                }
            }
        }
        lemma_subs_after_child_general(old_node, *node, Edge::Lit(c), before, after, rest_path,
            subs_at(before, rest_path).filter(not_sub(target)));
        lemma_match_after_child(*node, old_node, Edge::Lit(c), after, before);
        lemma_agree_after_child(*node, old_node, Edge::Lit(c), after, before);
        let full = token_path(seq![Token::Lit(c)] + rest_ts);
        assert(full.drop_first() =~= rest_path);
        assert(subs_at(old_node, full) == subs_at(before, rest_path));
        assert forall|j: int| 0 <= j < cs2.len() implies node_wf(*#[trigger] cs2[j].1) by {
            if j != idx {
                assert(cs2[j] == cs0[j]);
            }
        }
    }
    removed
}


pub open spec fn bytes_view(v: Seq<Vec<u8>>) -> Seq<Seq<u8>> {
    v.map_values(|x: Vec<u8>| x@)
}

fn collect_patterns(node: &TrieNode, patterns: &mut Vec<Vec<u8>>)
    ensures
        bytes_view(final(patterns)@) == bytes_view(old(patterns)@) + collect_spec(*node),
    decreases *node,
{
    let ghost base = bytes_view(patterns@);
    let ghost own = subs_view(node.subscribers@).map_values(|s: (Seq<u8>, ConnectionId)| s.0);
    let mut k: usize = 0;
    while k < node.subscribers.len()
        invariant
            k <= node.subscribers@.len(),
            bytes_view(patterns@) == base + own.take(k as int),
            own == subs_view(node.subscribers@).map_values(|s: (Seq<u8>, ConnectionId)| s.0),
        decreases node.subscribers@.len() - k,
    {
        let ghost before = patterns@;
        patterns.push(copy_bytes(&node.subscribers[k].0));
        assert(own.take(k + 1) =~= own.take(k as int).push(own[k as int]));
        assert(bytes_view(patterns@) =~= bytes_view(before).push(own[k as int]));
        k += 1;
    }
    assert(own.take(k as int) =~= own);
    let ghost after_own = bytes_view(patterns@);
    let mut j: usize = 0;
    while j < node.children.len()
        invariant
            j <= node.children@.len(),
            bytes_view(patterns@) == after_own + collect_children(
                node.children@,
                j as int,
                *node,
            ),
        decreases node.children@.len() - j,
    {
        proof {
            assert(decreases_to!(*node => *node.children@[j as int].1));
        }
        let child: &TrieNode = &node.children[j].1;
        collect_patterns(child, patterns);
        j += 1;
    }
    match &node.wildcard_child {
        Some(w) => collect_patterns(w, patterns),
        None => {},
    }
    match &node.single_char_child {
        Some(w) => collect_patterns(w, patterns),
        None => {},
    }
    match &node.char_class_child {
        Some(cc) => collect_patterns(&cc.next, patterns),
        None => {},
    }
    assert(bytes_view(patterns@) =~= base + collect_spec(*node));
}


proof fn lemma_collect_children_member(parent: TrieNode, k: int, x: Seq<u8>)
    requires
        0 <= k <= parent.children@.len(),
    ensures
        collect_children(parent.children@, k, parent).contains(x) <==> exists|j: int|
            0 <= j < k && #[trigger] collect_spec(*parent.children@[j].1).contains(x),
    decreases k,
{
    if k > 0 {
        lemma_collect_children_member(parent, k - 1, x);
        let a = collect_children(parent.children@, k - 1, parent);
        let b = collect_spec(*parent.children@[k - 1].1);
        lemma_concat_contains(a, b, x);
    }
}

/// A pattern is collected from a subtree exactly when some subscriber with that
/// pattern is stored somewhere in it.
proof fn lemma_collect_member(node: TrieNode, x: Seq<u8>)
    requires
        node_wf(node),
    ensures
        collect_spec(node).contains(x) <==> exists|q: Seq<Edge>, id: ConnectionId|
            #[trigger] subs_at(node, q).contains((x, id)),
    decreases node,
{
    let own = subs_view(node.subscribers@).map_values(|s: (Seq<u8>, ConnectionId)| s.0);
    let kids = collect_children(node.children@, node.children@.len() as int, node);
    let wild = match node.wildcard_child {
        Some(w) => collect_spec(*w),
        None => Seq::empty(),
    };
    let single = match node.single_char_child {
        Some(w) => collect_spec(*w),
        None => Seq::empty(),
    };
    let class = match node.char_class_child {
        Some(cc) => collect_spec(*cc.next),
        None => Seq::empty(),
    };
    assert(collect_spec(node) == own + kids + wild + single + class);
    lemma_concat_contains(own + kids + wild + single, class, x);
    lemma_concat_contains(own + kids + wild, single, x);
    lemma_concat_contains(own + kids, wild, x);
    lemma_concat_contains(own, kids, x);
    lemma_collect_children_member(node, node.children@.len() as int, x);
    assert forall|j: int| 0 <= j < node.children@.len() implies (#[trigger] collect_spec(
        *node.children@[j].1,
    ).contains(x) <==> exists|q: Seq<Edge>, id: ConnectionId|
        #[trigger] subs_at(*node.children@[j].1, q).contains((x, id))) by {
        assert(decreases_to!(node => *node.children@[j].1));
        lemma_collect_member(*node.children@[j].1, x);
    }
    if let Some(w) = node.wildcard_child {
        lemma_collect_member(*w, x);
    }
    if let Some(w) = node.single_char_child {
        lemma_collect_member(*w, x);
    }
    if let Some(cc) = node.char_class_child {
        lemma_collect_member(*cc.next, x);
    }
    // collected ==> stored
    if collect_spec(node).contains(x) {
        if own.contains(x) {
            let k = choose|k: int| 0 <= k < own.len() && own[k] == x;
            let id = subs_view(node.subscribers@)[k].1;
            assert(subs_view(node.subscribers@)[k] == (x, id));
            assert(subs_at(node, Seq::empty()).contains((x, id)));
        } else {
            let (e, n) = if kids.contains(x) {
                let j = choose|j: int|
                    0 <= j < node.children@.len() && #[trigger] collect_spec(
                        *node.children@[j].1,
                    ).contains(x);
                lemma_lit_child_seq(node.children@, node.children@[j].0, j);
                (Edge::Lit(node.children@[j].0), *node.children@[j].1)
            } else if wild.contains(x) {
                (Edge::Star, *node.wildcard_child.unwrap())
            } else if single.contains(x) {
                (Edge::Any, *node.single_char_child.unwrap())
            } else {
                (Edge::Class, *node.char_class_child.unwrap().next)
            };
            assert(child_for(node, e) == Some(n));
            let (r, id) = choose|r: Seq<Edge>, id: ConnectionId| #[trigger] subs_at(n, r).contains((x, id));
            let q = seq![e] + r;
            assert(q.drop_first() =~= r);
            assert(subs_at(node, q).contains((x, id)));
        }
    }
    // stored ==> collected
    if exists|q: Seq<Edge>, id: ConnectionId| #[trigger] subs_at(node, q).contains((x, id)) {
        let (q, id) = choose|q: Seq<Edge>, id: ConnectionId| #[trigger] subs_at(node, q).contains((x, id));
        if q.len() == 0 {
            let k = choose|k: int| 0 <= k < subs_at(node, q).len() && subs_at(node, q)[k] == (x, id);
            assert(own[k] == x);
        } else {
            let r = q.drop_first();
            assert(subs_at(child_for(node, q[0]).unwrap(), r).contains((x, id)));
            if let Edge::Lit(c) = q[0] {
                let j = choose|j: int| 0 <= j < node.children@.len() && node.children@[j].0 == c;
                lemma_lit_child_seq(node.children@, c, j);
                assert(collect_spec(*node.children@[j].1).contains(x));
            }
        }
    }
}


proof fn lemma_token_path_parts(ts: Seq<Token>)
    requires
        ts.len() > 0,
    ensures
        token_path(ts).len() == ts.len(),
        token_path(ts)[0] == edge_of(ts[0]),
        token_path(ts).drop_first() == token_path(ts.drop_first()),
{
    assert(token_path(ts).drop_first() =~= token_path(ts.drop_first()));
}

/// Along a path that exists in the trie and whose class nodes hold the classes
/// of `ts`, the trie matches exactly what the tokens match.
proof fn lemma_path_tokens_match(node: TrieNode, ts: Seq<Token>, ch: Seq<u8>, pos: int)
    requires
        classes_agree(node, ts),
        subs_at(node, token_path(ts)).len() > 0,
        0 <= pos <= ch.len(),
    ensures
        node_match(node, token_path(ts), ch, pos) == tokens_match(ts, ch, pos),
    decreases ts.len(), 1int, 0int,
{
    if ts.len() == 0 {
        assert(token_path(ts) =~= Seq::<Edge>::empty());
    } else {
        lemma_token_path_parts(ts);
        let path = token_path(ts);
        let rest = ts.drop_first();
        let e = edge_of(ts[0]);
        let c = child_for(node, e).unwrap();
        assert(subs_at(c, token_path(rest)).len() > 0);
        if pos < ch.len() {
            match ts[0] {
                Token::Star => {
                    let w = *node.wildcard_child.unwrap();
                    lemma_star_tokens(w, rest, ch, pos, ch.len() + 1int);
                },
                _ => {
                    lemma_path_tokens_match(c, rest, ch, pos + 1);
                },
            }
        }
    }
}

proof fn lemma_star_tokens(w: TrieNode, rest: Seq<Token>, ch: Seq<u8>, lo: int, hi: int)
    requires
        classes_agree(w, rest),
        subs_at(w, token_path(rest)).len() > 0,
        0 <= lo,
        hi <= ch.len() + 1,
    ensures
        star_match(w, token_path(rest), ch, lo, hi) == tokens_star(rest, ch, lo, hi),
    decreases rest.len(), 2int, hi - lo,
{
    if hi > lo {
        lemma_star_tokens(w, rest, ch, lo, hi - 1);
        lemma_path_tokens_match(w, rest, ch, hi - 1);
    }
}


proof fn lemma_filter_member(v: Seq<(Seq<u8>, ConnectionId)>, target: (Seq<u8>, ConnectionId), x: (Seq<u8>, ConnectionId))
    ensures
        v.filter(not_sub(target)).contains(x) <==> v.contains(x) && x != target,
{
    broadcast use vstd::seq_lib::group_filter_ensures;
    if v.contains(x) && x != target {
        let k = choose|k: int| 0 <= k < v.len() && v[k] == x;
        v.lemma_filter_contains(not_sub(target), k);
    }
    if v.filter(not_sub(target)).contains(x) {
        v.lemma_filter_contains_rev(not_sub(target), x);
        let f = v.filter(not_sub(target));
        let k = choose|k: int| 0 <= k < f.len() && f[k] == x;
        v.lemma_filter_pred(not_sub(target), k);
    }
}

impl PatternTrie {
    /// Whether the trie takes `pattern`: every pattern but those holding a
    /// class range whose lower end is byte 255.
    pub fn is_supported_pattern(pattern: &[u8]) -> (r: bool)
        ensures
            r == (pattern_tokens(pattern@) is Some),
    {
        let mut i: usize = 0;
        assert(pattern@.skip(0) =~= pattern@);
        while i < pattern.len()
            invariant
                i <= pattern@.len(),
                (pattern_tokens(pattern@) is Some) == (pattern_tokens(pattern@.skip(i as int)) is Some),
            decreases pattern@.len() - i,
        {
            let rest = &pattern[i..pattern.len()];
            assert(rest@ =~= pattern@.skip(i as int));
            proof {
                lemma_first_token_len(rest@);
            }
            let step: usize = if pattern[i] == 0x5bu8 {
                if class_overflows(rest) {
                    return false;
                }
                let (class, end) = parse_char_class(rest);
                match class {
                    Some(_) => end,
                    None => 1,
                }
            } else if pattern[i] == 0x5cu8 && rest.len() > 1 {
                2
            } else {
                1
            };
            proof {
                assert(first_token(rest@) matches Some((_, n)) && n == step);
                assert(rest@.skip(step as int) =~= pattern@.skip(i + step));
            }
            i = i + step;
        }
        assert(pattern@.skip(i as int) =~= Seq::<u8>::empty());
        true
    }
    /// The trie's structure is consistent and every subscriber is stored at the
    /// end of the path of its own pattern.
    pub closed spec fn well_formed(&self) -> bool {
        &&& node_wf(self.root)
        &&& forall|q: Seq<Edge>, s: (Seq<u8>, ConnectionId)|
            #[trigger] subs_at(self.root, q).contains(s) ==> pattern_path(s.0) == Some(q)
    }

    /// The subscribers stored at the end of path `q`, in subscription order.
    pub closed spec fn stored_at(&self, q: Seq<Edge>) -> Seq<(Seq<u8>, ConnectionId)> {
        subs_at(self.root, q)
    }

    /// Whether the trie's path `q` matches channel `ch`.
    pub closed spec fn path_matches(&self, q: Seq<Edge>, ch: Seq<u8>) -> bool {
        node_match(self.root, q, ch, 0)
    }

    /// Whether a message on `ch` reaches subscriber `s`.
    pub open spec fn delivers(&self, s: (Seq<u8>, ConnectionId), ch: Seq<u8>) -> bool {
        exists|q: Seq<Edge>| #[trigger] self.stored_at(q).contains(s) && self.path_matches(q, ch)
    }

    /// Whether subscriber `s` is stored anywhere in the trie.
    pub open spec fn is_stored(&self, s: (Seq<u8>, ConnectionId)) -> bool {
        exists|q: Seq<Edge>| #[trigger] self.stored_at(q).contains(s)
    }

    /// Whether every class node on the path of `p` already in the trie holds the
    /// class written in `p` (a class node keeps the class of the pattern that
    /// created it).
    pub closed spec fn keeps_classes_of(&self, p: Seq<u8>) -> bool {
        classes_agree(self.root, pattern_tokens(p).unwrap())
    }

    /// The subscribers `find_matches` reports for `ch`, in its order.
    pub closed spec fn search_order(&self, ch: Seq<u8>) -> Seq<(Seq<u8>, ConnectionId)> {
        find_spec(self.root, ch, 0)
    }

    pub fn new() -> (t: Self)
        ensures
            t.well_formed(),
            forall|q: Seq<Edge>| #[trigger] t.stored_at(q) == Seq::<(Seq<u8>, ConnectionId)>::empty(),
            forall|p: Seq<u8>| #[trigger] t.keeps_classes_of(p),
    {
        let t = Self { root: TrieNode::new() };
        proof {
            assert(empty_node(t.root));
            assert forall|q: Seq<Edge>| #[trigger] t.stored_at(q) == Seq::<(Seq<u8>, ConnectionId)>::empty() by {
                lemma_empty_subs(t.root, q);
            }
            assert forall|p: Seq<u8>| #[trigger] t.keeps_classes_of(p) by {
                lemma_empty_agree(t.root, pattern_tokens(p).unwrap());
            }
        }
        t
    }

    /// Subscribes `conn_id` to `pattern`.
    pub fn insert(&mut self, pattern: &[u8], conn_id: ConnectionId)
        requires
            old(self).well_formed(),
            pattern_tokens(pattern@) is Some,
        ensures
            final(self).well_formed(),
            forall|q: Seq<Edge>|
                #[trigger] final(self).stored_at(q) == if Some(q) == pattern_path(pattern@) {
                    old(self).stored_at(q).push((pattern@, conn_id))
                } else {
                    old(self).stored_at(q)
                },
            final(self).is_stored((pattern@, conn_id)),
            final(self).keeps_classes_of(pattern@) == old(self).keeps_classes_of(pattern@),
            forall|p2: Seq<u8>|
                pattern_tokens(p2) is Some ==> #[trigger] final(self).keeps_classes_of(p2) == old(self).keeps_classes_of(p2)
                    || class_clash(pattern_tokens(pattern@).unwrap(), pattern_tokens(p2).unwrap()),
            forall|s: (Seq<u8>, ConnectionId), ch: Seq<u8>|
                s != (pattern@, conn_id) ==> #[trigger] final(self).delivers(s, ch) == old(
                    self,
                ).delivers(s, ch),
    {
        let ghost old_self = *self;
        let ghost old_root = self.root;
        let ghost sub = (pattern@, conn_id);
        proof {
            assert(pattern@.skip(0) =~= pattern@);
        }
        insert_rec(&mut self.root, pattern, 0, conn_id);
        proof {
            let path = pattern_path(pattern@).unwrap();
            assert forall|q: Seq<Edge>, s: (Seq<u8>, ConnectionId)|
                #[trigger] subs_at(self.root, q).contains(s) implies pattern_path(s.0) == Some(q) by {
                if q == path {
                    let v = subs_at(old_root, q);
                    let k = choose|k: int| 0 <= k < v.push(sub).len() && v.push(sub)[k] == s;
                    if k < v.len() {
                        assert(v[k] == s);
                        assert(subs_at(old_root, q).contains(s));
                    }
                } else {
                    assert(subs_at(old_root, q).contains(s));
                }
            }
            assert forall|q: Seq<Edge>|
                #[trigger] self.stored_at(q) == if Some(q) == pattern_path(pattern@) {
                    subs_at(old_root, q).push((pattern@, conn_id))
                } else {
                    subs_at(old_root, q)
                } by {
                assert(subs_at(self.root, q) == if q == path {
                    subs_at(old_root, q).push(sub)
                } else {
                    subs_at(old_root, q)
                });
            }
            assert(subs_at(self.root, path)[subs_at(old_root, path).len() as int] == sub);
            assert(self.stored_at(path).contains(sub));
            assert forall|s: (Seq<u8>, ConnectionId), ch: Seq<u8>|
                s != sub implies #[trigger] self.delivers(s, ch) == old_self.delivers(s, ch) by {
                assert forall|q: Seq<Edge>| #[trigger] subs_at(self.root, q).contains(s) == subs_at(old_root, q).contains(s) by {
                    if q == path {
                        let v = subs_at(old_root, q);
                        if v.push(sub).contains(s) {
                            let k = choose|k: int| 0 <= k < v.push(sub).len() && v.push(sub)[k] == s;
                            assert(k < v.len());
                            assert(v[k] == s);
                        }
                        if v.contains(s) {
                            let k = choose|k: int| 0 <= k < v.len() && v[k] == s;
                            assert(v.push(sub)[k] == s);
                        }
                    }
                }
                if self.delivers(s, ch) {
                    let q = choose|q: Seq<Edge>| #[trigger] self.stored_at(q).contains(s) && self.path_matches(q, ch);
                    assert(subs_at(old_root, q).contains(s));
                    lemma_stored_path_in(old_root, q, s);
                    assert(node_match(self.root, q, ch, 0) == node_match(old_root, q, ch, 0));
                    assert(old_self.stored_at(q).contains(s) && old_self.path_matches(q, ch));
                }
                if old_self.delivers(s, ch) {
                    let q = choose|q: Seq<Edge>| #[trigger] old_self.stored_at(q).contains(s) && old_self.path_matches(q, ch);
                    assert(subs_at(old_root, q).contains(s));
                    lemma_stored_path_in(old_root, q, s);
                    assert(subs_at(self.root, q).contains(s));
                    assert(node_match(self.root, q, ch, 0) == node_match(old_root, q, ch, 0));
                    assert(self.stored_at(q).contains(s) && self.path_matches(q, ch));
                }
            }
        }
    }

    /// Unsubscribes `conn_id` from `pattern`; tells whether it was subscribed.
    pub fn remove(&mut self, pattern: &[u8], conn_id: ConnectionId) -> (r: bool)
        requires
            old(self).well_formed(),
            pattern_tokens(pattern@) is Some,
        ensures
            final(self).well_formed(),
            r == old(self).is_stored((pattern@, conn_id)),
            forall|q: Seq<Edge>|
                #[trigger] final(self).stored_at(q) == if Some(q) == pattern_path(pattern@) {
                    old(self).stored_at(q).filter(not_sub((pattern@, conn_id)))
                } else {
                    old(self).stored_at(q)
                },
            forall|q: Seq<Edge>, ch: Seq<u8>| #[trigger]
                final(self).path_matches(q, ch) == old(self).path_matches(q, ch),
            forall|p: Seq<u8>| #[trigger]
                final(self).keeps_classes_of(p) == old(self).keeps_classes_of(p),
            forall|ch: Seq<u8>| !#[trigger] final(self).delivers((pattern@, conn_id), ch),
            forall|s: (Seq<u8>, ConnectionId), ch: Seq<u8>|
                s != (pattern@, conn_id) ==> #[trigger] final(self).delivers(s, ch) == old(
                    self,
                ).delivers(s, ch),
            !final(self).is_stored((pattern@, conn_id)),
            forall|s: (Seq<u8>, ConnectionId)|
                s != (pattern@, conn_id) ==> #[trigger] final(self).is_stored(s) == old(self).is_stored(s),
    {
        let ghost old_self = *self;
        let ghost old_root = self.root;
        let ghost target = (pattern@, conn_id);
        proof {
            assert(pattern@.skip(0) =~= pattern@);
        }
        let removed = remove_from_node(&mut self.root, pattern, 0, pattern, conn_id);
        proof {
            let path = pattern_path(pattern@).unwrap();
            assert forall|q: Seq<Edge>, s: (Seq<u8>, ConnectionId)|
                #[trigger] subs_at(self.root, q).contains(s) implies pattern_path(s.0) == Some(q) by {
                if q == path {
                    lemma_filter_member(subs_at(old_root, q), target, s);
                }
                assert(subs_at(old_root, q).contains(s));
            }
            assert forall|q: Seq<Edge>|
                #[trigger] self.stored_at(q) == if Some(q) == pattern_path(pattern@) {
                    old_self.stored_at(q).filter(not_sub(target))
                } else {
                    old_self.stored_at(q)
                } by {}
            if old_self.is_stored(target) {
                let q = choose|q: Seq<Edge>| #[trigger] old_self.stored_at(q).contains(target);
                assert(subs_at(old_root, q).contains(target));
                assert(q == path);
            }
            if subs_at(old_root, path).contains(target) {
                assert(old_self.stored_at(path).contains(target));
            }
            assert forall|ch: Seq<u8>| !#[trigger] self.delivers(target, ch) by {
                if self.delivers(target, ch) {
                    let q = choose|q: Seq<Edge>| #[trigger] self.stored_at(q).contains(target) && self.path_matches(q, ch);
                    assert(subs_at(self.root, q).contains(target));
                    if q == path {
                        lemma_filter_member(subs_at(old_root, q), target, target);
                    } else {
                        assert(subs_at(old_root, q).contains(target));
                    }
                }
            }
            assert forall|s: (Seq<u8>, ConnectionId), ch: Seq<u8>|
                s != target implies #[trigger] self.delivers(s, ch) == old_self.delivers(s, ch) by {
                assert forall|q: Seq<Edge>| #[trigger] subs_at(self.root, q).contains(s) == subs_at(old_root, q).contains(s) by {
                    if q == path {
                        lemma_filter_member(subs_at(old_root, q), target, s);
                    }
                }
                if self.delivers(s, ch) {
                    let q = choose|q: Seq<Edge>| #[trigger] self.stored_at(q).contains(s) && self.path_matches(q, ch);
                    assert(subs_at(self.root, q).contains(s));
                    assert(node_match(self.root, q, ch, 0) == node_match(old_root, q, ch, 0));
                    assert(old_self.stored_at(q).contains(s) && old_self.path_matches(q, ch));
                }
                if old_self.delivers(s, ch) {
                    let q = choose|q: Seq<Edge>| #[trigger] old_self.stored_at(q).contains(s) && old_self.path_matches(q, ch);
                    assert(subs_at(old_root, q).contains(s));
                    assert(subs_at(self.root, q).contains(s));
                    assert(node_match(self.root, q, ch, 0) == node_match(old_root, q, ch, 0));
                    assert(self.stored_at(q).contains(s) && self.path_matches(q, ch));
                }
            }
            if self.is_stored(target) {
                let q = choose|q: Seq<Edge>| #[trigger] self.stored_at(q).contains(target);
                assert(subs_at(self.root, q).contains(target));
                if q == path {
                    lemma_filter_member(subs_at(old_root, q), target, target);
                } else {
                    assert(subs_at(old_root, q).contains(target));
                }
            }
            assert forall|s: (Seq<u8>, ConnectionId)|
                s != target implies #[trigger] self.is_stored(s) == old_self.is_stored(s) by {
                assert forall|q: Seq<Edge>| #[trigger] subs_at(self.root, q).contains(s) == subs_at(old_root, q).contains(s) by {
                    if q == path {
                        lemma_filter_member(subs_at(old_root, q), target, s);
                    }
                }
                if self.is_stored(s) {
                    let q = choose|q: Seq<Edge>| #[trigger] self.stored_at(q).contains(s);
                    assert(subs_at(self.root, q).contains(s));
                    assert(old_self.stored_at(q).contains(s));
                }
                if old_self.is_stored(s) {
                    let q = choose|q: Seq<Edge>| #[trigger] old_self.stored_at(q).contains(s);
                    assert(subs_at(old_root, q).contains(s));
                    assert(self.stored_at(q).contains(s));
                }
            }
        }
        removed
    }

    /// The subscribers whose patterns match `channel`, in search order; a
    /// subscriber may appear more than once when several splits of a `*` match.
    pub fn find_matches(&self, channel: &[u8]) -> (r: Vec<(Vec<u8>, ConnectionId)>)
        requires
            self.well_formed(),
        ensures
            subs_view(r@) == self.search_order(channel@),
            forall|s: (Seq<u8>, ConnectionId)| #[trigger] subs_view(r@).contains(s) == self.delivers(s, channel@),
    {
        let mut matches = Vec::new();
        find_in_node(&self.root, channel, 0, &mut matches);
        proof {
            assert(subs_view(matches@) =~= find_spec(self.root, channel@, 0));
            assert forall|s: (Seq<u8>, ConnectionId)| #[trigger] subs_view(matches@).contains(s) == self.delivers(s, channel@) by {
                lemma_find_member(self.root, channel@, 0, s);
                if self.delivers(s, channel@) {
                    let q = choose|q: Seq<Edge>| #[trigger] self.stored_at(q).contains(s) && self.path_matches(q, channel@);
                    assert(subs_at(self.root, q).contains(s) && node_match(self.root, q, channel@, 0));
                }
                if delivers_in(self.root, s, channel@) {
                    let q = choose|q: Seq<Edge>| #[trigger] subs_at(self.root, q).contains(s) && node_match(self.root, q, channel@, 0);
                    assert(self.stored_at(q).contains(s) && self.path_matches(q, channel@));
                }
            }
        }
        matches
    }

    /// Drops every subscription.
    pub fn clear(&mut self)
        ensures
            final(self).well_formed(),
            forall|q: Seq<Edge>| #[trigger] final(self).stored_at(q) == Seq::<(Seq<u8>, ConnectionId)>::empty(),
    {
        self.root = TrieNode::new();
        proof {
            assert(empty_node(self.root));
            assert forall|q: Seq<Edge>| #[trigger] self.stored_at(q) == Seq::<(Seq<u8>, ConnectionId)>::empty() by {
                lemma_empty_subs(self.root, q);
            }
        }
    }

    /// Every subscribed pattern, each once.
    pub fn get_all_patterns(&self) -> (r: Vec<Vec<u8>>)
        requires
            self.well_formed(),
        ensures
            bytes_view(r@).no_duplicates(),
            forall|x: Seq<u8>| #[trigger] bytes_view(r@).contains(x) <==> exists|id: ConnectionId| self.is_stored((x, id)),
    {
        let mut patterns = Vec::new();
        collect_patterns(&self.root, &mut patterns);
        let ghost all = bytes_view(patterns@);
        assert(all =~= collect_spec(self.root));
        let mut unique: Vec<Vec<u8>> = Vec::new();
        let mut k: usize = 0;
        while k < patterns.len()
            invariant
                k <= patterns@.len(),
                all == bytes_view(patterns@),
                bytes_view(unique@).no_duplicates(),
                forall|x: Seq<u8>| #[trigger] bytes_view(unique@).contains(x) <==> all.take(k as int).contains(x),
            decreases patterns@.len() - k,
        {
            let mut seen = false;
            let mut j: usize = 0;
            while j < unique.len() && !seen
                invariant
                    j <= unique@.len(),
                    k < patterns@.len(),
                    seen ==> bytes_view(unique@).contains(patterns@[k as int]@),
                    !seen ==> forall|i: int| 0 <= i < j ==> bytes_view(unique@)[i] != patterns@[k as int]@,
                decreases unique@.len() - j, if seen { 0int } else { 1int },
            {
                if bytes_equal(unique[j].as_slice(), patterns[k].as_slice()) {
                    seen = true;
                    assert(bytes_view(unique@)[j as int] == patterns@[k as int]@);
                } else {
                    j += 1;
                }
            }
            let ghost before = bytes_view(unique@);
            let ghost x = all[k as int];
            assert(all.take(k + 1) =~= all.take(k as int).push(x));
            if !seen {
                unique.push(copy_bytes(&patterns[k]));
                assert(bytes_view(unique@) =~= before.push(x));
                assert(!before.contains(x));
            }
            assert(x == patterns@[k as int]@);
            assert forall|y: Seq<u8>| #[trigger] bytes_view(unique@).contains(y) <==> all.take(k + 1).contains(y) by {
                lemma_push_contains(all.take(k as int), x, y);
                if !seen {
                    lemma_push_contains(before, x, y);
                }
            }
            k += 1;
        }
        proof {
            assert(all.take(k as int) =~= all);
            assert forall|x: Seq<u8>| #[trigger] bytes_view(unique@).contains(x) <==> exists|id: ConnectionId| self.is_stored((x, id)) by {
                lemma_collect_member(self.root, x);
                if exists|id: ConnectionId| self.is_stored((x, id)) {
                    let id = choose|id: ConnectionId| self.is_stored((x, id));
                    let q = choose|q: Seq<Edge>| #[trigger] self.stored_at(q).contains((x, id));
                    assert(subs_at(self.root, q).contains((x, id)));
                }
                if collect_spec(self.root).contains(x) {
                    let (q, id) = choose|q: Seq<Edge>, id: ConnectionId| #[trigger] subs_at(self.root, q).contains((x, id));
                    assert(self.stored_at(q).contains((x, id)));
                    assert(self.is_stored((x, id)));
                }
                assert(bytes_view(unique@).contains(x) == all.take(k as int).contains(x));
            }
        }
        unique
    }
}

spec fn delivers_in(root: TrieNode, s: (Seq<u8>, ConnectionId), ch: Seq<u8>) -> bool {
    exists|q: Seq<Edge>| #[trigger] subs_at(root, q).contains(s) && node_match(root, q, ch, 0)
}

impl Default for PatternTrie {
    fn default() -> (t: Self)
        ensures
            t.well_formed(),
            forall|q: Seq<Edge>| #[trigger] t.stored_at(q) == Seq::<(Seq<u8>, ConnectionId)>::empty(),
    {
        Self::new()
    }
}

/// Whether a pattern is supported and holds no character class.
pub open spec fn class_free(p: Seq<u8>) -> bool {
    match pattern_tokens(p) {
        Some(ts) => forall|i: int| 0 <= i < ts.len() ==> !(#[trigger] ts[i] is Class),
        None => false,
    }
}

/// Every node agrees with tokens that hold no class.
proof fn lemma_class_free_agree(node: TrieNode, ts: Seq<Token>)
    requires
        forall|i: int| 0 <= i < ts.len() ==> !(#[trigger] ts[i] is Class),
    ensures
        classes_agree(node, ts),
    decreases ts.len(),
{
    if ts.len() > 0 {
        assert(!(ts[0] is Class));
        match child_for(node, edge_of(ts[0])) {
            Some(c) => {
                assert forall|i: int| 0 <= i < ts.drop_first().len() implies !(#[trigger] ts.drop_first()[i] is Class) by {
                    assert(ts.drop_first()[i] == ts[i + 1]);
                }
                lemma_class_free_agree(c, ts.drop_first());
            },
            None => {},
        }
    }
}

/// A pattern without character classes is delivered exactly the messages on
/// the channels it matches, whatever else is subscribed.
pub proof fn law_class_free_delivery(t: PatternTrie, p: Seq<u8>, id: ConnectionId, ch: Seq<u8>)
    requires
        t.well_formed(),
        t.is_stored((p, id)),
        class_free(p),
    ensures
        t.delivers((p, id), ch) == pattern_matches(p, ch),
{
    lemma_class_free_agree(t.root, pattern_tokens(p).unwrap());
    law_delivery_follows_pattern(t, p, id, ch);
}

/// A message on a channel reaches a subscriber exactly when the subscriber's
/// pattern matches the channel, provided the class nodes on the pattern's path
/// hold the classes written in that pattern (they always do when no other
/// pattern created a class node at the same place with different bytes).
pub proof fn law_delivery_follows_pattern(t: PatternTrie, p: Seq<u8>, id: ConnectionId, ch: Seq<u8>)
    requires
        t.well_formed(),
        t.is_stored((p, id)),
        t.keeps_classes_of(p),
    ensures
        t.delivers((p, id), ch) == pattern_matches(p, ch),
{
    let q = choose|q: Seq<Edge>| #[trigger] t.stored_at(q).contains((p, id));
    assert(subs_at(t.root, q).contains((p, id)));
    let ts = pattern_tokens(p).unwrap();
    assert(q == token_path(ts));
    lemma_path_tokens_match(t.root, ts, ch, 0);
    if t.delivers((p, id), ch) {
        let q2 = choose|q2: Seq<Edge>| #[trigger] t.stored_at(q2).contains((p, id)) && t.path_matches(q2, ch);
        assert(subs_at(t.root, q2).contains((p, id)));
    }
}

} // verus!
