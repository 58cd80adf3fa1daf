//! The completion engine: analyses the cursor context over a parsed
//! document's AST and namespace and produces ranked, positioned
//! suggestions, or reports that the position is not a trigger point.

use vstd::prelude::*;
use vstd::string::StrSliceExecFns;
use vstd::string::StringExecFns;
use vstd::string::StringSliceAdditionalSpecFns;
use crate::ast::{AuthoringMeta, Binding, BindingItem, Namespace, NamespaceItem, NamespaceNodeElement};
use crate::document::{MetaStoreView, RainDocument};
use crate::lexer::{TokenPattern, exclusive_spans, exclusive_parse, kept_gap_spans, lemma_exclusive_spans_bounds, lemma_kept_gap_spans_bounds, tracked_trim};
use crate::namespace::{seq_get, str_eq};
use crate::offsets::{Position, offset_at, spec_offset_at};
use crate::patterns::{
    is_trigger_char, is_path_trigger_char, is_word, check_trigger_char, check_path_trigger_char,
    check_word, check_hex_literal,
};

verus! {

broadcast use vstd::string::group_string_axioms;

/// The documentation markup flavor a caller asks for.
#[derive(Debug, Clone, Copy, PartialEq, Eq, Structural)]
pub enum MarkupKind {
    PlainText,
    Markdown,
}

/// The kind tag of one completion candidate.
#[derive(Debug, Clone, Copy, PartialEq, Eq, Structural)]
pub enum CompletionItemKind {
    /// A nested namespace.
    Field,
    /// A binding.
    Class,
    /// An opcode word.
    Function,
    /// A stack alias declared on an earlier line.
    Variable,
    /// Another known document.
    File,
    /// A cached meta item.
    Module,
}

/// An explicit text replacement a candidate carries instead of a plain
/// insertion point.
#[derive(Debug, Clone, PartialEq)]
pub struct ReplaceRange {
    pub start: Position,
    pub end: Position,
    pub new_text: String,
}

/// One completion candidate.
#[derive(Debug, Clone, PartialEq)]
pub struct CompletionItem {
    /// The label shown to the user.
    pub label: String,
    /// The short tag shown beside the label.
    pub description: String,
    /// The kind tag.
    pub kind: CompletionItemKind,
    /// The detail line.
    pub detail: String,
    /// The literal insertion string.
    pub insert_text: String,
    /// Human documentation in the caller's chosen flavor.
    pub documentation: Option<String>,
    /// An explicit replace-range for candidates replacing a typed prefix.
    pub text_edit: Option<ReplaceRange>,
}

/// Hex digit character of one value below sixteen.
pub open spec fn nibble_char(n: int) -> char {
    if n == 0 {
        '0'
    } else if n == 1 {
        '1'
    } else if n == 2 {
        '2'
    } else if n == 3 {
        '3'
    } else if n == 4 {
        '4'
    } else if n == 5 {
        '5'
    } else if n == 6 {
        '6'
    } else if n == 7 {
        '7'
    } else if n == 8 {
        '8'
    } else if n == 9 {
        '9'
    } else if n == 10 {
        'a'
    } else if n == 11 {
        'b'
    } else if n == 12 {
        'c'
    } else if n == 13 {
        'd'
    } else if n == 14 {
        'e'
    } else {
        'f'
    }
}

/// Lowercase hex rendering of a byte string, two digits per byte.
pub open spec fn hex_of(bytes: Seq<u8>) -> Seq<char>
    decreases bytes.len(),
{
    if bytes.len() == 0 {
        Seq::empty()
    } else {
        hex_of(bytes.drop_last()) + seq![
            nibble_char(bytes.last() as int / 16),
            nibble_char(bytes.last() as int % 16),
        ]
    }
}

/// Appends the hex digit of one value below sixteen.
fn push_nibble(out: &mut String, n: u8)
    requires
        n < 16,
    ensures
        final(out)@ =~= old(out)@.push(nibble_char(n as int)),
{
    if n == 0 {
        out.append("0");
        proof {
            reveal_strlit("0");
            assert("0"@ =~= seq!['0']);
        }
    } else if n == 1 {
        out.append("1");
        proof {
            reveal_strlit("1");
            assert("1"@ =~= seq!['1']);
        }
    } else if n == 2 {
        out.append("2");
        proof {
            reveal_strlit("2");
            assert("2"@ =~= seq!['2']);
        }
    } else if n == 3 {
        out.append("3");
        proof {
            reveal_strlit("3");
            assert("3"@ =~= seq!['3']);
        }
    } else if n == 4 {
        out.append("4");
        proof {
            reveal_strlit("4");
            assert("4"@ =~= seq!['4']);
        }
    } else if n == 5 {
        out.append("5");
        proof {
            reveal_strlit("5");
            assert("5"@ =~= seq!['5']);
        }
    } else if n == 6 {
        out.append("6");
        proof {
            reveal_strlit("6");
            assert("6"@ =~= seq!['6']);
        }
    } else if n == 7 {
        out.append("7");
        proof {
            reveal_strlit("7");
            assert("7"@ =~= seq!['7']);
        }
    } else if n == 8 {
        out.append("8");
        proof {
            reveal_strlit("8");
            assert("8"@ =~= seq!['8']);
        }
    } else if n == 9 {
        out.append("9");
        proof {
            reveal_strlit("9");
            assert("9"@ =~= seq!['9']);
        }
    } else if n == 10 {
        out.append("a");
        proof {
            reveal_strlit("a");
            assert("a"@ =~= seq!['a']);
        }
    } else if n == 11 {
        out.append("b");
        proof {
            reveal_strlit("b");
            assert("b"@ =~= seq!['b']);
        }
    } else if n == 12 {
        out.append("c");
        proof {
            reveal_strlit("c");
            assert("c"@ =~= seq!['c']);
        }
    } else if n == 13 {
        out.append("d");
        proof {
            reveal_strlit("d");
            assert("d"@ =~= seq!['d']);
        }
    } else if n == 14 {
        out.append("e");
        proof {
            reveal_strlit("e");
            assert("e"@ =~= seq!['e']);
        }
    } else {
        out.append("f");
        proof {
            reveal_strlit("f");
            assert("f"@ =~= seq!['f']);
        }
    }
}

/// Appends the lowercase hex rendering of a byte string.
fn append_hex(out: &mut String, bytes: &Vec<u8>)
    ensures
        final(out)@ == old(out)@ + hex_of(bytes@),
{
    let mut i: usize = 0;
    let ghost base = out@;
    while i < bytes.len()
        invariant
            0 <= i <= bytes@.len(),
            out@ =~= base + hex_of(bytes@.take(i as int)),
        decreases bytes@.len() - i,
    {
        let b = bytes[i];
        push_nibble(out, b / 16);
        push_nibble(out, b % 16);
        proof {
            assert(bytes@.take(i + 1).drop_last() =~= bytes@.take(i as int));
            assert(bytes@.take(i + 1).last() == bytes@[i as int]);
        }
        i += 1;
    }
    proof {
        assert(bytes@.take(bytes@.len() as int) =~= bytes@);
    }
}

/// Renders a byte string as a `0x`-prefixed lowercase hex literal.
pub fn encode_prefixed(bytes: &Vec<u8>) -> (r: String)
    ensures
        r@ == seq!['0', 'x'] + hex_of(bytes@),
{
    let mut out = String::from_str("0x");
    proof {
        reveal_strlit("0x");
        assert("0x"@ =~= seq!['0', 'x']);
    }
    append_hex(&mut out, bytes);
    out
}

/// Renders a byte string as an `x`-prefixed lowercase hex literal, the
/// label form of a meta hash.
fn encode_x_prefixed(bytes: &Vec<u8>) -> (r: String)
    ensures
        r@ == seq!['x'] + hex_of(bytes@),
{
    let mut out = String::from_str("x");
    proof {
        reveal_strlit("x");
        assert("x"@ =~= seq!['x']);
    }
    append_hex(&mut out, bytes);
    out
}

/// Length of the longest suffix of identifier-continuation characters.
pub open spec fn trigger_suffix_len(t: Seq<char>, path: bool) -> nat
    decreases t.len(),
{
    if t.len() > 0 && (if path {
        is_path_trigger_char(t.last())
    } else {
        is_trigger_char(t.last())
    }) {
        1 + trigger_suffix_len(t.drop_last(), path)
    } else {
        0
    }
}

/// One character continues the prefix under the chosen character class.
fn check_prefix_char(c: char, path: bool) -> (r: bool)
    ensures
        r == (if path {
            is_path_trigger_char(c)
        } else {
            is_trigger_char(c)
        }),
{
    if path {
        check_path_trigger_char(c)
    } else {
        check_trigger_char(c)
    }
}

/// The last run of identifier-continuation characters of `text`: the
/// prefix of the word the cursor stands behind.
pub fn get_prefix(text: &str, path: bool) -> (r: String)
    requires
        text.is_ascii(),
    ensures
        r@ == text@.skip(text@.len() - trigger_suffix_len(text@, path)),
        r.is_ascii(),
        trigger_suffix_len(text@, path) <= text@.len(),
{
    let len = text.unicode_len();
    proof {
        assert(text@.take(len as int) =~= text@);
    }
    let mut j: usize = len;
    while j > 0 && check_prefix_char(text.get_char(j - 1), path)
        invariant
            text.is_ascii(),
            len == text@.len(),
            0 <= j <= len,
            trigger_suffix_len(text@, path) == (len - j) + trigger_suffix_len(
                text@.take(j as int),
                path,
            ),
        decreases j,
    {
        proof {
            let tj = text@.take(j as int);
            assert(tj[tj.len() - 1] == text@[j - 1]);
            assert(tj.drop_last() =~= text@.take(j - 1));
        }
        j -= 1;
    }
    proof {
        if j > 0 {
            let tj = text@.take(j as int);
            assert(tj[tj.len() - 1] == text@[j - 1]);
            assert(trigger_suffix_len(tj, path) == 0);
        }
    }
    let piece = text.substring_ascii(j, len);
    proof {
        assert(piece@ =~= text@.skip(text@.len() - trigger_suffix_len(text@, path)));
    }
    String::from_str(piece)
}

/// A contiguous piece of an ASCII text is ASCII.
proof fn lemma_subrange_ascii(t: Seq<char>, a: int, b: int)
    requires
        vstd::utf8::is_ascii_chars(t),
        0 <= a <= b <= t.len(),
    ensures
        vstd::utf8::is_ascii_chars(t.subrange(a, b)),
{
    assert forall|i: int|
        0 <= i < t.subrange(a, b).len() implies '\0' <= #[trigger] t.subrange(a, b)[i]
        <= '\u{7f}' by {
        assert(t.subrange(a, b)[i] == t[a + i]);
        assert('\0' <= t[a + i] <= '\u{7f}');
    }
}

/// The dot-separated segments of a namespace path prefix, empty segments
/// included.
pub open spec fn split_dots(t: Seq<char>) -> Seq<Seq<char>> {
    exclusive_spans(t, TokenPattern::Dot).map_values(|sp: (int, int)| t.subrange(sp.0, sp.1))
}

/// Walks the namespace tree segment by segment from `i` on; `None` when a
/// segment is unresolved or lands on a leaf.
pub open spec fn walk_namespace(ns: Namespace, segs: Seq<Seq<char>>, i: int) -> Option<Namespace>
    decreases segs.len() - i,
{
    if i < 0 || i >= segs.len() {
        Some(ns)
    } else {
        match seq_get(ns.entries@, segs[i]) {
            Some(NamespaceItem::Namespace(sub)) => walk_namespace(sub, segs, i + 1),
            _ => None,
        }
    }
}

/// What a search for a dotted prefix yields: after dropping a leading dot
/// the segment count must stay within bounds, every segment except the
/// trailing one must be a word, the trailing one a word or empty, and the
/// walk over all but the trailing segment must land on an interior node.
/// The segments a dotted search prefix resolves through: the dot-split
/// pieces, with the empty piece of a leading dot dropped.
pub open spec fn search_segs(name: Seq<char>) -> Seq<Seq<char>> {
    let segs0 = split_dots(name);
    if name.len() > 0 && name[0] == '.' {
        segs0.drop_first()
    } else {
        segs0
    }
}

pub open spec fn spec_search_namespace(name: Seq<char>, ns: Namespace) -> Option<Namespace> {
    let segs = search_segs(name);
    if segs.len() > 32 || segs.len() == 0 {
        None
    } else if !(segs.last().len() == 0 || is_word(segs.last())) {
        None
    } else if exists|j: int| 0 <= j < segs.len() - 1 && !is_word(#[trigger] segs[j]) {
        None
    } else {
        walk_namespace(ns, segs.drop_last(), 0)
    }
}

/// Searches a namespace for the interior node a dotted name prefix leads
/// to.
pub fn search_namespace<'a>(name: &str, namespace: &'a Namespace) -> (r: Option<&'a Namespace>)
    requires
        name.is_ascii(),
        name@.len() <= usize::MAX,
    ensures
        match r {
            Some(m) => spec_search_namespace(name@, *namespace) == Some(*m),
            None => spec_search_namespace(name@, *namespace) is None,
        },
{
    let mut segments = exclusive_parse(name, TokenPattern::Dot, 0, true);
    let ghost segs0 = split_dots(name@);
    proof {
        assert(segs0.len() == segments@.len());
        assert(forall|j: int|
            0 <= j < segments@.len() ==> (#[trigger] segments@[j]).0@ == segs0[j]);
        lemma_exclusive_spans_bounds(name@, TokenPattern::Dot);
        assert forall|j: int|
            0 <= j < segments@.len() implies (#[trigger] segments@[j]).0.is_ascii() by {
            let sp = exclusive_spans(name@, TokenPattern::Dot)[j];
            assert(segments@[j].0@ == name@.subrange(sp.0, sp.1));
            lemma_subrange_ascii(name@, sp.0, sp.1);
        }
    }
    let len = name.unicode_len();
    if len > 0 && name.get_char(0) == '.' {
        segments.remove(0);
        proof {
            assert(segments@.len() == segs0.drop_first().len());
            assert(forall|j: int|
                0 <= j < segments@.len() ==> (#[trigger] segments@[j]).0@
                    == segs0.drop_first()[j]);
        }
    }
    let ghost segs = search_segs(name@);
    if segments.len() > 32 || segments.len() == 0 {
        return None;
    }
    let n = segments.len();
    let last = &segments[n - 1];
    if !(last.0.as_str().unicode_len() == 0 || check_word(last.0.as_str())) {
        return None;
    }
    let mut i: usize = 0;
    while i < n - 1
        invariant
            0 <= i <= n - 1,
            n == segments@.len(),
            n == segs.len(),
            1 <= n <= 32,
            segs == search_segs(name@),
            segs.last().len() == 0 || is_word(segs.last()),
            forall|j: int| 0 <= j < n ==> (#[trigger] segments@[j]).0@ == segs[j],
            forall|j: int| 0 <= j < segments@.len() ==> (#[trigger] segments@[j]).0.is_ascii(),
            forall|j: int| 0 <= j < i ==> is_word(#[trigger] segs[j]),
        decreases n - 1 - i,
    {
        if !check_word(segments[i].0.as_str()) {
            proof {
                assert(!is_word(segs[i as int]));
                assert(exists|j: int|
                    0 <= j < segs.len() - 1 && !is_word(#[trigger] segs[j]));
                assert(spec_search_namespace(name@, *namespace) is None);
            }
            return None;
        }
        i += 1;
    }
    let mut cur: &Namespace = namespace;
    let mut k: usize = 0;
    proof {
        assert(segs.drop_last().len() == n - 1);
        assert(forall|j: int|
            0 <= j < n - 1 ==> #[trigger] segs.drop_last()[j] == segs[j]);
    }
    while k < n - 1
        invariant
            0 <= k <= n - 1,
            n == segments@.len(),
            n == segs.len(),
            1 <= n <= 32,
            segs == search_segs(name@),
            segs.last().len() == 0 || is_word(segs.last()),
            forall|j: int| 0 <= j < n - 1 ==> is_word(#[trigger] segs[j]),
            forall|j: int| 0 <= j < n ==> (#[trigger] segments@[j]).0@ == segs[j],
            walk_namespace(*namespace, segs.drop_last(), 0) == walk_namespace(
                *cur,
                segs.drop_last(),
                k as int,
            ),
        decreases n - 1 - k,
    {
        proof {
            assert(segs.drop_last()[k as int] == segs[k as int]);
        }
        match cur.get(segments[k].0.as_str()) {
            Some(item) => match item {
                NamespaceItem::Namespace(sub) => {
                    cur = sub;
                },
                NamespaceItem::Node(_) => {
                    return None;
                },
            },
            None => {
                return None;
            },
        }
        k += 1;
    }
    Some(cur)
}

/// The documentation rendered for an expression binding: its trimmed
/// content, fenced as code when the caller asked for markdown.
pub open spec fn rendered_exp_doc(content: Seq<char>, format: MarkupKind) -> Seq<char> {
    if format == MarkupKind::Markdown {
        "```rainlang\n"@ + crate::lexer::spec_trimmed(content) + "\n```"@
    } else {
        crate::lexer::spec_trimmed(content)
    }
}

/// The candidate a namespace entry yields: namespaces as fields, bindings
/// as values annotated with their kind and documentation.
pub open spec fn item_matches_entry(
    item: CompletionItem,
    key: Seq<char>,
    entry: NamespaceItem,
    format: MarkupKind,
) -> bool {
    match entry {
        NamespaceItem::Namespace(_) => {
            &&& item.label@ == key
            &&& item.kind == CompletionItemKind::Field
            &&& item.description@ == "namespace"@
            &&& item.detail@ == "namespace: "@ + key
            &&& item.insert_text@ == key
            &&& item.documentation is None
            &&& item.text_edit is None
        },
        NamespaceItem::Node(node) => match node.element {
            NamespaceNodeElement::Binding(b) => {
                &&& item.label@ == key
                &&& item.kind == CompletionItemKind::Class
                &&& item.description@ == "binding"@
                &&& item.insert_text@ == key
                &&& item.text_edit is None
                &&& match b.item {
                    BindingItem::Constant(c) => item.detail@ == "constant binding: "@ + key
                        && item.documentation == Some(c.value),
                    BindingItem::Elided(e) => item.detail@ == "elided binding: "@ + key
                        && item.documentation == Some(e.msg),
                    BindingItem::Exp(_) => item.detail@ == "expression binding: "@ + key && (
                    item.documentation matches Some(d) && d@ == rendered_exp_doc(
                        b.content@,
                        format,
                    )),
                }
            },
            NamespaceNodeElement::Dispair(_) => false,
        },
    }
}

/// An expression binding's raw content is ASCII text, trivially true of
/// every other item.
pub open spec fn exp_content_ascii(item: NamespaceItem) -> bool {
    match item {
        NamespaceItem::Node(n) => match n.element {
            NamespaceNodeElement::Binding(b) => match b.item {
                BindingItem::Exp(_) => b.content.is_ascii(),
                _ => true,
            },
            _ => true,
        },
        NamespaceItem::Namespace(_) => true,
    }
}

/// Whether an item is a deployer descriptor's leaf.
pub open spec fn is_dispair_leaf(item: NamespaceItem) -> bool {
    item matches NamespaceItem::Node(n) && n.element is Dispair
}

/// The entries a namespace offers as candidates: all of them, in order,
/// except deployer leaves.
pub open spec fn offered_entries(entries: Seq<(String, NamespaceItem)>) -> Seq<(
    String,
    NamespaceItem,
)>
    decreases entries.len(),
{
    if entries.len() == 0 {
        Seq::empty()
    } else {
        offered_entries(entries.drop_last()) + (if is_dispair_leaf(entries.last().1) {
            Seq::empty()
        } else {
            seq![entries.last()]
        })
    }
}

proof fn lemma_offered_entries(entries: Seq<(String, NamespaceItem)>)
    ensures
        offered_entries(entries).len() <= entries.len(),
        (forall|i: int| 0 <= i < entries.len() ==> !is_dispair_leaf((#[trigger] entries[i]).1))
            ==> offered_entries(entries) == entries,
        forall|j: int|
            0 <= j < offered_entries(entries).len() ==> exists|i: int|
                0 <= i < entries.len() && entries[i] == #[trigger] offered_entries(entries)[j],
    decreases entries.len(),
{
    if entries.len() > 0 {
        lemma_offered_entries(entries.drop_last());
        assert(forall|i: int|
            0 <= i < entries.drop_last().len() ==> #[trigger] entries.drop_last()[i]
                == entries[i]);
        if forall|i: int| 0 <= i < entries.len() ==> !is_dispair_leaf((#[trigger] entries[i]).1) {
            assert(!is_dispair_leaf(entries.last().1));
            assert(offered_entries(entries.drop_last()) == entries.drop_last());
            assert(offered_entries(entries) =~= entries);
        }
        assert forall|j: int|
            0 <= j < offered_entries(entries).len() implies exists|i: int|
            0 <= i < entries.len() && entries[i] == #[trigger] offered_entries(entries)[j] by {
            if j < offered_entries(entries.drop_last()).len() {
                assert(offered_entries(entries)[j] == offered_entries(entries.drop_last())[j]);
                let i = choose|i: int|
                    0 <= i < entries.drop_last().len() && entries.drop_last()[i]
                        == offered_entries(entries.drop_last())[j];
                assert(entries[i] == offered_entries(entries)[j]);
            } else {
                assert(offered_entries(entries)[j] == entries.last());
                assert(entries[entries.len() - 1] == offered_entries(entries)[j]);
            }
        }
    }
}

/// Whether a namespace holds no deployer leaves at its top level.
pub open spec fn no_dispair_entries(ns: Namespace) -> bool {
    forall|i: int|
        0 <= i < ns.entries@.len() ==> !((#[trigger] ns.entries@[i].1) matches
            NamespaceItem::Node(n) && n.element is Dispair)
}

/// Offers every entry of a namespace: nested namespaces as fields, and
/// constant, elided and expression bindings as values with their kind and
/// documentation; deployer leaves offer nothing.
#[verifier::rlimit(100)]
#[verifier::spinoff_prover]
pub fn namespace_completion_items(ns: &Namespace, format: MarkupKind) -> (r: Vec<CompletionItem>)
    requires
        forall|i: int|
            0 <= i < ns.entries@.len() ==> exp_content_ascii(#[trigger] ns.entries@[i].1),
    ensures
        r@.len() == offered_entries(ns.entries@).len(),
        forall|j: int|
            0 <= j < r@.len() ==> item_matches_entry(
                #[trigger] r@[j],
                offered_entries(ns.entries@)[j].0@,
                offered_entries(ns.entries@)[j].1,
                format,
            ),
        no_dispair_entries(*ns) ==> r@.len() == ns.entries@.len() && forall|j: int|
            0 <= j < r@.len() ==> item_matches_entry(
                #[trigger] r@[j],
                ns.entries@[j].0@,
                ns.entries@[j].1,
                format,
            ),
        r@.len() <= ns.entries@.len(),
        forall|j: int|
            0 <= j < r@.len() ==> exists|i: int|
                0 <= i < ns.entries@.len() && item_matches_entry(
                    #[trigger] r@[j],
                    ns.entries@[i].0@,
                    ns.entries@[i].1,
                    format,
                ),
{
    let mut r: Vec<CompletionItem> = Vec::new();
    let mut i: usize = 0;
    proof {
        assert(ns.entries@.take(0) =~= Seq::<(String, NamespaceItem)>::empty());
    }
    while i < ns.entries.len()
        invariant
            0 <= i <= ns.entries@.len(),
            forall|k: int|
                0 <= k < ns.entries@.len() ==> exp_content_ascii(#[trigger] ns.entries@[k].1),
            r@.len() == offered_entries(ns.entries@.take(i as int)).len(),
            forall|j: int|
                0 <= j < r@.len() ==> item_matches_entry(
                    #[trigger] r@[j],
                    offered_entries(ns.entries@.take(i as int))[j].0@,
                    offered_entries(ns.entries@.take(i as int))[j].1,
                    format,
                ),
        decreases ns.entries@.len() - i,
    {
        proof {
            assert(ns.entries@.take(i + 1).drop_last() =~= ns.entries@.take(i as int));
            assert(ns.entries@.take(i + 1).last() == ns.entries@[i as int]);
        }
        let key = &ns.entries[i].0;
        match &ns.entries[i].1 {
            NamespaceItem::Namespace(_) => {
                r.push(
                    CompletionItem {
                        label: key.clone(),
                        description: String::from_str("namespace"),
                        kind: CompletionItemKind::Field,
                        detail: String::from_str("namespace: ").concat(key.as_str()),
                        insert_text: key.clone(),
                        documentation: None,
                        text_edit: None,
                    },
                );
            },
            NamespaceItem::Node(node) => match &node.element {
                NamespaceNodeElement::Binding(b) => {
                    let documentation = match &b.item {
                        BindingItem::Constant(c) => Some(c.value.clone()),
                        BindingItem::Elided(e) => Some(e.msg.clone()),
                        BindingItem::Exp(_) => {
                            let trimmed = tracked_trim(b.content.as_str()).0;
                            match format {
                                MarkupKind::Markdown => Some(
                                    String::from_str("```rainlang\n").concat(trimmed).concat(
                                        "\n```",
                                    ),
                                ),
                                MarkupKind::PlainText => Some(String::from_str(trimmed)),
                            }
                        },
                    };
                    let detail = match &b.item {
                        BindingItem::Constant(_) => String::from_str(
                            "constant binding: ",
                        ).concat(key.as_str()),
                        BindingItem::Elided(_) => String::from_str("elided binding: ").concat(
                            key.as_str(),
                        ),
                        BindingItem::Exp(_) => String::from_str("expression binding: ").concat(
                            key.as_str(),
                        ),
                    };
                    r.push(
                        CompletionItem {
                            label: key.clone(),
                            description: String::from_str("binding"),
                            kind: CompletionItemKind::Class,
                            detail,
                            insert_text: key.clone(),
                            documentation,
                            text_edit: None,
                        },
                    );
                },
                NamespaceNodeElement::Dispair(_) => {
                    proof {
                        assert(offered_entries(ns.entries@.take(i + 1)) =~= offered_entries(
                            ns.entries@.take(i as int),
                        ));
                    }
                },
            },
        }
        proof {
            if !is_dispair_leaf(ns.entries@[i as int].1) {
                assert(offered_entries(ns.entries@.take(i + 1)) =~= offered_entries(
                    ns.entries@.take(i as int),
                ).push(ns.entries@[i as int]));
            }
        }
        i += 1;
    }
    proof {
        assert(ns.entries@.take(ns.entries@.len() as int) =~= ns.entries@);
        lemma_offered_entries(ns.entries@);
        if no_dispair_entries(*ns) {
            assert(forall|k: int|
                0 <= k < ns.entries@.len() ==> !is_dispair_leaf((#[trigger] ns.entries@[k]).1));
            assert(offered_entries(ns.entries@) == ns.entries@);
        }
        assert forall|j: int|
            0 <= j < r@.len() implies exists|i2: int|
            0 <= i2 < ns.entries@.len() && item_matches_entry(
                #[trigger] r@[j],
                ns.entries@[i2].0@,
                ns.entries@[i2].1,
                format,
            ) by {
            let i2 = choose|i2: int|
                0 <= i2 < ns.entries@.len() && ns.entries@[i2] == offered_entries(
                    ns.entries@,
                )[j];
            assert(item_matches_entry(r@[j], ns.entries@[i2].0@, ns.entries@[i2].1, format));
        }
    }
    r
}

/// Whether `text[from..to]` holds a colon.
fn contains_colon(text: &str, from: usize, to: usize) -> (r: bool)
    requires
        text.is_ascii(),
        from <= to <= text@.len(),
    ensures
        r == exists|i: int| from <= i < to && text@[i] == ':',
{
    let mut i = from;
    while i < to
        invariant
            text.is_ascii(),
            from <= i <= to <= text@.len(),
            forall|j: int| from <= j < i ==> text@[j] != ':',
        decreases to - i,
    {
        if text.get_char(i) == ':' {
            return true;
        }
        i += 1;
    }
    false
}

/// Index of the first source whose span, relative to the binding's
/// content, contains the cursor; the source count when none does.
pub open spec fn source_at(ast: Seq<crate::ast::RainlangSource>, rel: int) -> int
    decreases ast.len(),
{
    if ast.len() == 0 {
        0
    } else if ast[0].position.start <= rel && rel < ast[0].position.end {
        0
    } else {
        1 + source_at(ast.drop_first(), rel)
    }
}

proof fn lemma_source_at(ast: Seq<crate::ast::RainlangSource>, rel: int)
    ensures
        0 <= source_at(ast, rel) <= ast.len(),
        source_at(ast, rel) < ast.len() ==> ast[source_at(ast, rel)].position.start <= rel && rel
            < ast[source_at(ast, rel)].position.end,
        forall|j: int|
            0 <= j < source_at(ast, rel) ==> !((#[trigger] ast[j]).position.start <= rel && rel
                < ast[j].position.end),
    decreases ast.len(),
{
    if ast.len() > 0 && !(ast[0].position.start <= rel && rel < ast[0].position.end) {
        lemma_source_at(ast.drop_first(), rel);
        assert forall|j: int|
            0 <= j < source_at(ast, rel) implies !((#[trigger] ast[j]).position.start <= rel
            && rel < ast[j].position.end) by {
            if j > 0 {
                assert(ast.drop_first()[j - 1] == ast[j]);
            }
        }
        if source_at(ast.drop_first(), rel) < ast.drop_first().len() {
            assert(ast[source_at(ast, rel)] == ast.drop_first()[source_at(
                ast.drop_first(),
                rel,
            )]);
        }
    }
}

/// The aliases of one list other than the placeholder, in order.
pub open spec fn named_aliases(aliases: Seq<crate::ast::Alias>) -> Seq<crate::ast::Alias>
    decreases aliases.len(),
{
    if aliases.len() == 0 {
        Seq::empty()
    } else {
        named_aliases(aliases.drop_last()) + (if aliases.last().name@ == "_"@ {
            Seq::empty()
        } else {
            seq![aliases.last()]
        })
    }
}

/// The stack aliases declared on lines strictly preceding the cursor, in
/// declaration order, excluding the placeholder.
pub open spec fn qualifying_aliases(lines: Seq<crate::ast::RainlangLine>, rel: int) -> Seq<
    crate::ast::Alias,
>
    decreases lines.len(),
{
    if lines.len() == 0 {
        Seq::empty()
    } else {
        qualifying_aliases(lines.drop_last(), rel) + (if lines.last().position.end + 1 < rel {
            named_aliases(lines.last().aliases@)
        } else {
            Seq::empty()
        })
    }
}

/// Whether the cursor stands on the right-hand side of the last line of
/// the expression source containing it.
pub open spec fn alias_context_holds(
    ast: Seq<crate::ast::RainlangSource>,
    binding: Binding,
    text: Seq<char>,
    offset: int,
) -> bool {
    let base = binding.content_position.start;
    let rel = offset - base;
    &&& offset >= base
    &&& source_at(ast, rel) < ast.len()
    &&& ast[source_at(ast, rel)].lines@.len() > 0
    &&& base + ast[source_at(ast, rel)].lines@.last().position.start <= usize::MAX
    &&& base + ast[source_at(ast, rel)].lines@.last().position.start <= offset
    &&& offset <= text.len()
    &&& exists|i: int|
        base + ast[source_at(ast, rel)].lines@.last().position.start <= i < offset && text[i]
            == ':'
}

/// The stack-alias candidates owed at the cursor: the qualifying aliases
/// of the containing source when the context holds, and nothing otherwise.
pub open spec fn alias_candidates(
    ast: Seq<crate::ast::RainlangSource>,
    binding: Binding,
    text: Seq<char>,
    offset: int,
) -> Seq<crate::ast::Alias> {
    if alias_context_holds(ast, binding, text, offset) {
        qualifying_aliases(ast[source_at(ast, offset - binding.content_position.start)].lines@, offset - binding.content_position.start)
    } else {
        Seq::empty()
    }
}

/// The candidate one stack alias yields.
pub open spec fn alias_item_matches(item: CompletionItem, a: crate::ast::Alias) -> bool {
    &&& item.label@ == a.name@
    &&& item.kind == CompletionItemKind::Variable
    &&& item.description@ == "stack alias"@
    &&& item.detail@ == "stack alias: "@ + a.name@
    &&& item.insert_text@ == a.name@
    &&& (item.documentation matches Some(d) && d@ == "stack alias"@)
    &&& item.text_edit is None
}

/// Offers one candidate per stack alias declared on lines strictly
/// preceding the cursor inside the expression binding the cursor stands
/// in, excluding the placeholder alias; nothing when the cursor is not on
/// the right-hand side of the containing source's last line.
fn get_rainlang_src_alias_completions(
    offset: usize,
    ast: &Vec<crate::ast::RainlangSource>,
    binding: &Binding,
    dotrain_text: &str,
    documentation_format: MarkupKind,
) -> (r: Vec<CompletionItem>)
    requires
        dotrain_text.is_ascii(),
    ensures
        r@.len() == alias_candidates(ast@, *binding, dotrain_text@, offset as int).len(),
        forall|j: int|
            0 <= j < r@.len() ==> alias_item_matches(
                #[trigger] r@[j],
                alias_candidates(ast@, *binding, dotrain_text@, offset as int)[j],
            ),
{
    let mut r: Vec<CompletionItem> = Vec::new();
    let base = binding.content_position.start;
    if offset < base {
        return r;
    }
    let rel = offset - base;
    proof {
        lemma_source_at(ast@, rel as int);
    }
    // the first source whose span contains the cursor
    let mut src_at: Option<usize> = None;
    let mut i: usize = 0;
    while i < ast.len()
        invariant
            0 <= i <= ast@.len(),
            src_at matches Some(k) ==> k as int == source_at(ast@, rel as int) && k < ast@.len(),
            src_at is None ==> forall|j: int|
                0 <= j < i ==> !((#[trigger] ast@[j]).position.start <= rel && rel
                    < ast@[j].position.end),
        decreases ast@.len() - i,
    {
        if src_at.is_none() && ast[i].position.start <= rel && rel < ast[i].position.end {
            proof {
                lemma_source_at(ast@, rel as int);
                if source_at(ast@, rel as int) < i {
                    assert(ast@[source_at(ast@, rel as int)].position.start <= rel && rel
                        < ast@[source_at(ast@, rel as int)].position.end);
                }
            }
            src_at = Some(i);
        }
        i += 1;
    }
    let ghost candidates = alias_candidates(ast@, *binding, dotrain_text@, offset as int);
    let si = match src_at {
        Some(si) => si,
        None => {
            proof {
                lemma_source_at(ast@, rel as int);
                if source_at(ast@, rel as int) < ast@.len() {
                    assert(ast@[source_at(ast@, rel as int)].position.start <= rel && rel
                        < ast@[source_at(ast@, rel as int)].position.end);
                }
                assert(!alias_context_holds(ast@, *binding, dotrain_text@, offset as int));
            }
            return r;
        },
    };
    let src = &ast[si];
    if src.lines.len() == 0 {
        proof {
            assert(!alias_context_holds(ast@, *binding, dotrain_text@, offset as int));
        }
        return r;
    }
    let last_line_start = src.lines[src.lines.len() - 1].position.start;
    let tlen = dotrain_text.unicode_len();
    // the cursor must stand on the right-hand side of the last line
    if base > usize::MAX - last_line_start {
        proof {
            assert(!alias_context_holds(ast@, *binding, dotrain_text@, offset as int));
        }
        return r;
    }
    let abs_line_start = base + last_line_start;
    if !(abs_line_start <= offset && offset <= tlen) {
        proof {
            assert(!alias_context_holds(ast@, *binding, dotrain_text@, offset as int));
        }
        return r;
    }
    if !contains_colon(dotrain_text, abs_line_start, offset) {
        proof {
            assert(!alias_context_holds(ast@, *binding, dotrain_text@, offset as int));
        }
        return r;
    }
    proof {
        assert(alias_context_holds(ast@, *binding, dotrain_text@, offset as int));
        assert(candidates == qualifying_aliases(ast@[si as int].lines@, rel as int));
        assert(ast@[si as int].lines@.take(0) =~= Seq::<crate::ast::RainlangLine>::empty());
    }
    let mut li: usize = 0;
    while li < src.lines.len()
        invariant
            0 <= li <= src.lines@.len(),
            si < ast@.len(),
            src == &ast@[si as int],
            rel == offset - binding.content_position.start,
            candidates == qualifying_aliases(ast@[si as int].lines@, rel as int),
            r@.len() == qualifying_aliases(src.lines@.take(li as int), rel as int).len(),
            forall|j: int|
                0 <= j < r@.len() ==> alias_item_matches(
                    #[trigger] r@[j],
                    qualifying_aliases(src.lines@.take(li as int), rel as int)[j],
                ),
        decreases src.lines@.len() - li,
    {
        let line = &src.lines[li];
        let ghost qa_before = qualifying_aliases(src.lines@.take(li as int), rel as int);
        proof {
            assert(src.lines@.take(li + 1).drop_last() =~= src.lines@.take(li as int));
            assert(src.lines@.take(li + 1).last() == src.lines@[li as int]);
        }
        if line.position.end < usize::MAX && line.position.end + 1 < rel {
            proof {
                assert(line.aliases@.take(0) =~= Seq::<crate::ast::Alias>::empty());
            }
            let mut ai: usize = 0;
            while ai < line.aliases.len()
                invariant
                    0 <= ai <= line.aliases@.len(),
                    si < ast@.len(),
                    src == &ast@[si as int],
                    li < src.lines@.len(),
                    line == &src.lines@[li as int],
                    rel == offset - binding.content_position.start,
                    qa_before == qualifying_aliases(src.lines@.take(li as int), rel as int),
                    r@.len() == (qa_before + named_aliases(line.aliases@.take(ai as int))).len(),
                    forall|j: int|
                        0 <= j < r@.len() ==> alias_item_matches(
                            #[trigger] r@[j],
                            (qa_before + named_aliases(line.aliases@.take(ai as int)))[j],
                        ),
                decreases line.aliases@.len() - ai,
            {
                let alias = &line.aliases[ai];
                proof {
                    assert(line.aliases@.take(ai + 1).drop_last() =~= line.aliases@.take(
                        ai as int,
                    ));
                    assert(line.aliases@.take(ai + 1).last() == line.aliases@[ai as int]);
                }
                if !str_eq(alias.name.as_str(), "_") {
                    proof {
                        reveal_strlit("_");
                    }
                    r.push(
                        CompletionItem {
                            label: alias.name.clone(),
                            description: String::from_str("stack alias"),
                            kind: CompletionItemKind::Variable,
                            detail: String::from_str("stack alias: ").concat(
                                alias.name.as_str(),
                            ),
                            insert_text: alias.name.clone(),
                            documentation: Some(String::from_str("stack alias")),
                            text_edit: None,
                        },
                    );
                    proof {
                        assert(named_aliases(line.aliases@.take(ai + 1))
                            =~= named_aliases(line.aliases@.take(ai as int)).push(
                            line.aliases@[ai as int],
                        ));
                        assert((qa_before + named_aliases(line.aliases@.take(ai + 1)))
                            =~= (qa_before + named_aliases(line.aliases@.take(ai as int))).push(
                            line.aliases@[ai as int],
                        ));
                    }
                } else {
                    proof {
                        assert(named_aliases(line.aliases@.take(ai + 1)) =~= named_aliases(
                            line.aliases@.take(ai as int),
                        ));
                    }
                }
                ai += 1;
            }
            proof {
                assert(line.aliases@.take(line.aliases@.len() as int) =~= line.aliases@);
                assert(qualifying_aliases(src.lines@.take(li + 1), rel as int) == qa_before
                    + named_aliases(line.aliases@));
            }
        } else {
            proof {
                assert(qualifying_aliases(src.lines@.take(li + 1), rel as int) =~= qa_before);
            }
        }
        li += 1;
    }
    proof {
        assert(src.lines@.take(src.lines@.len() as int) =~= src.lines@);
    }
    r
}

/// A namespace path prefix is well-shaped: every dot-separated segment is
/// a word, except the trailing one, which may also be empty.
pub open spec fn is_namespace_prefix(t: Seq<char>) -> bool {
    let segs = split_dots(t);
    &&& forall|j: int| 0 <= j < segs.len() - 1 ==> is_word(#[trigger] segs[j])
    &&& (segs.last().len() == 0 || is_word(segs.last()))
}

/// Checks the namespace-path shape of a prefix.
fn check_namespace_prefix(prefix: &str) -> (r: bool)
    requires
        prefix.is_ascii(),
        prefix@.len() <= usize::MAX,
    ensures
        r == is_namespace_prefix(prefix@),
{
    let segments = exclusive_parse(prefix, TokenPattern::Dot, 0, true);
    let ghost segs = split_dots(prefix@);
    proof {
        assert(segs.len() == segments@.len());
        assert(forall|j: int|
            0 <= j < segments@.len() ==> (#[trigger] segments@[j]).0@ == segs[j]);
        lemma_exclusive_spans_bounds(prefix@, TokenPattern::Dot);
        assert forall|j: int|
            0 <= j < segments@.len() implies (#[trigger] segments@[j]).0.is_ascii() by {
            let sp = exclusive_spans(prefix@, TokenPattern::Dot)[j];
            assert(segments@[j].0@ == prefix@.subrange(sp.0, sp.1));
            lemma_subrange_ascii(prefix@, sp.0, sp.1);
        }
    }
    let n = segments.len();
    let last = &segments[n - 1];
    if !(last.0.as_str().unicode_len() == 0 || check_word(last.0.as_str())) {
        return false;
    }
    let mut i: usize = 0;
    while i < n - 1
        invariant
            0 <= i <= n - 1,
            n == segments@.len(),
            n == segs.len(),
            n >= 1,
            segs == split_dots(prefix@),
            prefix.is_ascii(),
            forall|j: int| 0 <= j < n ==> (#[trigger] segments@[j]).0@ == segs[j],
            forall|j: int| 0 <= j < segments@.len() ==> (#[trigger] segments@[j]).0.is_ascii(),
            forall|j: int| 0 <= j < i ==> is_word(#[trigger] segs[j]),
        decreases n - 1 - i,
    {
        if !check_word(segments[i].0.as_str()) {
            proof {
                assert(!is_word(segs[i as int]));
            }
            return false;
        }
        i += 1;
    }
    true
}

/// Whether `text` holds a dot.
fn contains_dot(text: &str) -> (r: bool)
    requires
        text.is_ascii(),
    ensures
        r == exists|i: int| 0 <= i < text@.len() && text@[i] == '.',
{
    let len = text.unicode_len();
    let mut i: usize = 0;
    while i < len
        invariant
            text.is_ascii(),
            len == text@.len(),
            0 <= i <= len,
            forall|j: int| 0 <= j < i ==> text@[j] != '.',
        decreases len - i,
    {
        if text.get_char(i) == '.' {
            return true;
        }
        i += 1;
    }
    false
}

/// The candidate one opcode word yields.
pub open spec fn opcode_item_matches(item: CompletionItem, w: crate::ast::AuthoringMetaItem) -> bool {
    &&& item.label@ == w.word@
    &&& item.kind == CompletionItemKind::Function
    &&& item.description@ == "opcode"@
    &&& item.detail@ == "opcode: "@ + w.word@
    &&& item.insert_text@ == w.word@
    &&& (item.documentation matches Some(d) && d@ == w.description@)
    &&& item.text_edit is None
}

/// The known opcode words head the candidate list, one candidate per
/// word, in vocabulary order.
pub open spec fn opcode_items_included(items: Seq<CompletionItem>, am: AuthoringMeta) -> bool {
    &&& items.len() >= am.0@.len()
    &&& forall|w: int|
        #![trigger am.0@[w]]
        0 <= w < am.0@.len() ==> opcode_item_matches(items[w], am.0@[w])
}

proof fn lemma_opcode_items_append(a: Seq<CompletionItem>, b: Seq<CompletionItem>, am: AuthoringMeta)
    requires
        opcode_items_included(a, am),
    ensures
        opcode_items_included(a + b, am),
{
    assert forall|w: int|
        #![trigger am.0@[w]]
        0 <= w < am.0@.len() implies opcode_item_matches((a + b)[w], am.0@[w]) by {
        assert((a + b)[w] == a[w]);
    }
}

/// The offered namespace entries close the candidate list: one candidate
/// per entry, in entry order, at the tail.
pub open spec fn namespace_items_included(
    items: Seq<CompletionItem>,
    entries: Seq<(String, NamespaceItem)>,
    format: MarkupKind,
) -> bool {
    &&& items.len() >= offered_entries(entries).len()
    &&& forall|e: int|
        #![trigger offered_entries(entries)[e]]
        0 <= e < offered_entries(entries).len() ==> item_matches_entry(
            items[items.len() - offered_entries(entries).len() + e],
            offered_entries(entries)[e].0@,
            offered_entries(entries)[e].1,
            format,
        )
}

/// Appending the namespace candidates to any front matter keeps every
/// offered entry represented.
proof fn lemma_ns_items_included(
    front: Seq<CompletionItem>,
    tail: Seq<CompletionItem>,
    entries: Seq<(String, NamespaceItem)>,
    format: MarkupKind,
)
    requires
        tail.len() == offered_entries(entries).len(),
        forall|j: int|
            0 <= j < tail.len() ==> item_matches_entry(
                #[trigger] tail[j],
                offered_entries(entries)[j].0@,
                offered_entries(entries)[j].1,
                format,
            ),
    ensures
        namespace_items_included(front + tail, entries, format),
{
    let all = front + tail;
    assert forall|e: int|
        #![trigger offered_entries(entries)[e]]
        0 <= e < offered_entries(entries).len() implies item_matches_entry(
        all[all.len() - offered_entries(entries).len() + e],
        offered_entries(entries)[e].0@,
        offered_entries(entries)[e].1,
        format,
    ) by {
        assert(item_matches_entry(
            tail[e],
            offered_entries(entries)[e].0@,
            offered_entries(entries)[e].1,
            format,
        ));
        assert(all[front.len() + e] == tail[e]);
        assert(all.len() - offered_entries(entries).len() + e == front.len() + e);
    }
}

/// Index of the first binding whose content span contains the cursor, or
/// the binding count when none does.
pub open spec fn binding_at(bindings: Seq<Binding>, off: int) -> int
    decreases bindings.len(),
{
    if bindings.len() == 0 {
        0
    } else if bindings[0].content_position.start <= off && off
        < bindings[0].content_position.end {
        0
    } else {
        1 + binding_at(bindings.drop_first(), off)
    }
}

proof fn lemma_binding_at(bindings: Seq<Binding>, off: int)
    ensures
        0 <= binding_at(bindings, off) <= bindings.len(),
        binding_at(bindings, off) < bindings.len() ==> bindings[binding_at(
            bindings,
            off,
        )].content_position.start <= off && off < bindings[binding_at(
            bindings,
            off,
        )].content_position.end,
        forall|j: int|
            0 <= j < binding_at(bindings, off) ==> !((#[trigger] bindings[j]).content_position.start
                <= off && off < bindings[j].content_position.end),
    decreases bindings.len(),
{
    if bindings.len() > 0 && !(bindings[0].content_position.start <= off && off
        < bindings[0].content_position.end) {
        lemma_binding_at(bindings.drop_first(), off);
        assert forall|j: int|
            0 <= j < binding_at(bindings, off) implies !((
        #[trigger] bindings[j]).content_position.start <= off && off
            < bindings[j].content_position.end) by {
            if j > 0 {
                assert(bindings.drop_first()[j - 1] == bindings[j]);
            }
        }
        if binding_at(bindings.drop_first(), off) < bindings.drop_first().len() {
            assert(bindings[binding_at(bindings, off)] == bindings.drop_first()[binding_at(
                bindings.drop_first(),
                off,
            )]);
        }
    }
}

/// The stack-alias candidates owed at the cursor of a whole document: the
/// aliases of the expression binding the cursor stands in, and nothing
/// when it stands in none.
pub open spec fn cursor_alias_candidates(doc: RainDocument, off: int) -> Seq<crate::ast::Alias> {
    let bi = binding_at(doc.bindings@, off);
    if bi < doc.bindings@.len() && doc.bindings@[bi].item is Exp {
        alias_candidates(
            (doc.bindings@[bi].item->Exp_0).ast@,
            doc.bindings@[bi],
            doc.text@,
            off,
        )
    } else {
        Seq::empty()
    }
}

/// Whether the cursor offset falls inside the span of any import
/// statement of the document.
pub open spec fn in_import(doc: RainDocument, off: int) -> bool {
    exists|i: int|
        0 <= i < doc.imports@.len() && (#[trigger] doc.imports@[i]).position.start <= off && off
            <= doc.imports@[i].position.end
}

/// Index of the first import whose span contains the cursor offset, from
/// position `i` on; the import count when none does.
pub open spec fn first_import_from(imports: Seq<crate::namespace::Import>, off: int, i: int) -> int
    decreases imports.len() - i,
{
    if i < 0 || i >= imports.len() {
        imports.len() as int
    } else if imports[i].position.start <= off && off <= imports[i].position.end {
        i
    } else {
        first_import_from(imports, off, i + 1)
    }
}

/// The identifier-continuation run directly before the cursor, within the
/// cursor's own line.
pub open spec fn line_prefix(doc: RainDocument, position: Position) -> Seq<char> {
    let t = doc.text@;
    let off = spec_offset_at(t, position.line as int, position.character as int);
    let ls = spec_offset_at(t, position.line as int, 0);
    let a = if ls <= off {
        ls
    } else {
        off
    };
    let pre = t.subrange(a, off);
    pre.skip(pre.len() - trigger_suffix_len(pre, false))
}

/// The line prefix with a leading quote mark stripped.
pub open spec fn stripped_prefix(doc: RainDocument, position: Position) -> Seq<char> {
    let p = line_prefix(doc, position);
    if p.len() > 0 && p[0] == '\'' {
        p.skip(1)
    } else {
        p
    }
}

/// The text from the start of the import statement under the cursor up to
/// the cursor.
pub open spec fn import_pretext(doc: RainDocument, position: Position) -> Seq<char> {
    let t = doc.text@;
    let off = spec_offset_at(t, position.line as int, position.character as int);
    let fi = first_import_from(doc.imports@, off, 0);
    let a0 = doc.imports@[fi].position.start as int;
    let a = if a0 <= off {
        a0
    } else {
        off
    };
    t.subrange(a, off)
}

/// The whitespace-separated chunks of the import pretext.
pub open spec fn import_chunks(doc: RainDocument, position: Position) -> Seq<Seq<char>> {
    let pre = import_pretext(doc, position);
    kept_gap_spans(pre, TokenPattern::WhitespaceRun, false).map_values(
        |sp: (int, int)| pre.subrange(sp.0, sp.1),
    )
}

/// The hash of an import head is already typed: the statement has run past
/// its head, or an earlier chunk is a complete hash literal.
pub open spec fn hash_already_typed(doc: RainDocument, position: Position) -> bool {
    let chunks = import_chunks(doc, position);
    ||| chunks.len() == 0
    ||| chunks.len() >= 4
    ||| (chunks.len() >= 2 && crate::patterns::is_hex_literal(chunks[0]))
    ||| (chunks.len() == 3 && crate::patterns::is_hex_literal(chunks[1]))
}

/// The trailing chunk, its import-address mark stripped, begins a hash
/// literal, so cached meta items are offered too.
pub open spec fn meta_hash_context(doc: RainDocument, position: Position) -> bool {
    let chunks = import_chunks(doc, position);
    chunks.len() > 0 && {
        let last = chunks[chunks.len() - 1];
        let eff = if last.len() > 0 && last[0] == '@' {
            last.skip(1)
        } else {
            last
        };
        (eff.len() >= 1 && eff[0] == 'x') || (eff.len() >= 2 && eff[0] == '0' && eff[1] == 'x')
    }
}

/// The known documents other than the one being edited, in cache order.
pub open spec fn other_docs(cache: Seq<(String, Vec<u8>)>, uri: Seq<char>) -> Seq<(
    String,
    Vec<u8>,
)>
    decreases cache.len(),
{
    if cache.len() == 0 {
        Seq::empty()
    } else {
        other_docs(cache.drop_last(), uri) + (if cache.last().0@ == uri {
            Seq::empty()
        } else {
            seq![cache.last()]
        })
    }
}

/// The candidate one known document yields: its uri as label, its content
/// hash as insertion, and a replacement of the typed prefix.
pub open spec fn doc_hash_item_matches(
    item: CompletionItem,
    entry: (String, Vec<u8>),
    position: Position,
    plen: int,
) -> bool {
    &&& item.label@ == entry.0@
    &&& item.kind == CompletionItemKind::File
    &&& item.description@ == "rain document"@
    &&& item.detail@ == "rain document at: "@ + entry.0@
    &&& item.insert_text@ == seq!['0', 'x'] + hex_of(entry.1@)
    &&& (item.documentation matches Some(d) && d@ == seq!['0', 'x'] + hex_of(entry.1@))
    &&& (item.text_edit matches Some(rr) && rr.end == position && rr.start.line == position.line
        && rr.start.character as int == (if plen <= position.character as int {
        position.character as int - plen
    } else {
        0
    }) && rr.new_text@ == seq!['0', 'x'] + hex_of(entry.1@))
}

/// The candidate one cached meta item yields.
pub open spec fn meta_hash_item_matches(item: CompletionItem, h: Vec<u8>) -> bool {
    &&& item.label@ == seq!['x'] + hex_of(h@)
    &&& item.kind == CompletionItemKind::Module
    &&& item.description@ == "meta"@
    &&& item.detail@ == "meta hash: "@ + seq!['0', 'x'] + hex_of(h@)
    &&& item.insert_text@ == seq!['0', 'x'] + hex_of(h@)
    &&& item.documentation is None
    &&& item.text_edit is None
}

/// Provides completion candidates for a document at a cursor position, or
/// `None` when the position is not a trigger point: mid-token positions,
/// malformed prefixes and already-typed hashes offer nothing.
pub fn get_completion(
    rain_document: &RainDocument,
    uri: &str,
    position: Position,
    documentation_format: MarkupKind,
    store: &MetaStoreView,
) -> (r: Option<Vec<CompletionItem>>)
    requires
        rain_document.text.is_ascii(),
        rain_document.text@.len() <= u32::MAX,
        forall|i: int|
            0 <= i < rain_document.namespace.entries@.len() ==> exp_content_ascii(#[trigger] rain_document.namespace.entries@[i].1),
    ensures
        ({
            let t = rain_document.text@;
            let off = spec_offset_at(t, position.line as int, position.character as int);
            let mid_token = off < t.len() && is_trigger_char(t[off]);
            let prefix = stripped_prefix(*rain_document, position);
            let dotted = exists|i: int| 0 <= i < prefix.len() && prefix[i] == '.';
            &&& (mid_token ==> r is None)
            &&& (!mid_token && !in_import(*rain_document, off) && !is_namespace_prefix(prefix)
                ==> r is None)
            &&& (!mid_token && !in_import(*rain_document, off) && is_namespace_prefix(prefix)
                && dotted ==> (r is Some <==> spec_search_namespace(
                prefix,
                rain_document.namespace,
            ) is Some))
            &&& (!mid_token && !in_import(*rain_document, off) && is_namespace_prefix(prefix)
                && !dotted ==> r is Some)
            &&& ({
                // for an undotted prefix the result holds the known opcode
                // words, then any stack aliases, then one candidate per
                // top-level namespace entry; a quoted prefix keeps only
                // the namespace entries
                let quoted = line_prefix(*rain_document, position).len() > 0 && line_prefix(
                    *rain_document,
                    position,
                )[0] == '\'';
                &&& (!mid_token && !in_import(*rain_document, off) && is_namespace_prefix(prefix)
                    && !dotted && !quoted && rain_document.known_words is Some
                    ==> opcode_items_included(r->0@, rain_document.known_words->0))
                &&& (!mid_token && !in_import(*rain_document, off) && is_namespace_prefix(prefix)
                    && !dotted && quoted ==> r->0@.len() == offered_entries(
                    rain_document.namespace.entries@,
                ).len() && forall|j: int|
                    0 <= j < r->0@.len() ==> (#[trigger] r->0@[j]).kind
                        != CompletionItemKind::Function && r->0@[j].kind
                        != CompletionItemKind::Variable)
                &&& ({
                    let k1 = if rain_document.known_words is Some {
                        (rain_document.known_words->0).0@.len() as int
                    } else {
                        0
                    };
                    let aliases = cursor_alias_candidates(*rain_document, off);
                    !mid_token && !in_import(*rain_document, off) && is_namespace_prefix(prefix)
                        && !dotted && !quoted ==> r->0@.len() == k1 + aliases.len()
                        + offered_entries(rain_document.namespace.entries@).len() && (forall|k: int|
                        #![trigger aliases[k]]
                        0 <= k < aliases.len() ==> alias_item_matches(
                            r->0@[k1 + k],
                            aliases[k],
                        ))
                })
                &&& (!mid_token && !in_import(*rain_document, off) && is_namespace_prefix(prefix)
                    && !dotted ==> namespace_items_included(
                    r->0@,
                    rain_document.namespace.entries@,
                    documentation_format,
                ))
            })
            &&& (!mid_token && in_import(*rain_document, off) && rain_document.imports@[
                first_import_from(rain_document.imports@, off, 0)].configuration is Some ==> r
                is Some)
            &&& (!mid_token && in_import(*rain_document, off) && rain_document.imports@[
                first_import_from(rain_document.imports@, off, 0)].configuration is None ==> (r
                is None <==> hash_already_typed(*rain_document, position)))
            &&& ({
                let docs = other_docs(store.dotrain_cache@, uri@);
                let plen = trigger_suffix_len(import_pretext(*rain_document, position), true) as int;
                !mid_token && in_import(*rain_document, off) && rain_document.imports@[
                    first_import_from(rain_document.imports@, off, 0)].configuration is None
                    && !hash_already_typed(*rain_document, position) ==> r is Some && r->0@.len()
                    == docs.len() + (if meta_hash_context(*rain_document, position) {
                    store.meta_hashes@.len() as int
                } else {
                    0
                }) && (forall|e: int|
                    #![trigger docs[e]]
                    0 <= e < docs.len() ==> doc_hash_item_matches(
                        r->0@[e],
                        docs[e],
                        position,
                        plen,
                    )) && (meta_hash_context(*rain_document, position) ==> forall|h: int|
                    #![trigger store.meta_hashes@[h]]
                    0 <= h < store.meta_hashes@.len() ==> meta_hash_item_matches(
                        r->0@[docs.len() + h],
                        store.meta_hashes@[h],
                    ))
            })
            &&& ({
                let found = spec_search_namespace(prefix, rain_document.namespace);
                !mid_token && !in_import(*rain_document, off) && is_namespace_prefix(prefix)
                    && dotted && found is Some && (forall|i: int|
                    0 <= i < found->0.entries@.len() ==> exp_content_ascii(
                        #[trigger] found->0.entries@[i].1,
                    )) ==> r is Some && r->0@.len() == offered_entries(found->0.entries@).len()
                    && (forall|j: int|
                    0 <= j < r->0@.len() ==> item_matches_entry(
                        #[trigger] r->0@[j],
                        offered_entries(found->0.entries@)[j].0@,
                        offered_entries(found->0.entries@)[j].1,
                        documentation_format,
                    ))
            })
        }),
{
    let text = rain_document.text.as_str();
    let target_offset = offset_at(text, &position);
    let len = text.len();
    proof {
        assert(text.is_ascii());
        assert(text.spec_bytes().len() == text@.len());
    }
    if target_offset < len {
        if check_trigger_char(text.get_char(target_offset)) {
            return None;
        }
    }
    // inside an import statement?
    let mut import_at: Option<usize> = None;
    let mut ii: usize = 0;
    while ii < rain_document.imports.len()
        invariant
            0 <= ii <= rain_document.imports@.len(),
            import_at matches Some(k) ==> k < rain_document.imports@.len()
                && rain_document.imports@[k as int].position.start <= target_offset
                && target_offset <= rain_document.imports@[k as int].position.end
                && first_import_from(rain_document.imports@, target_offset as int, 0)
                == k as int,
            import_at is None ==> forall|j: int|
                0 <= j < ii ==> !((#[trigger] rain_document.imports@[j]).position.start
                    <= target_offset && target_offset <= rain_document.imports@[j].position.end),
            import_at is None ==> first_import_from(rain_document.imports@, target_offset as int, 0)
                == first_import_from(rain_document.imports@, target_offset as int, ii as int),
        decreases rain_document.imports@.len() - ii,
    {
        let imp = &rain_document.imports[ii];
        if import_at.is_none() && imp.position.start <= target_offset && target_offset
            <= imp.position.end {
            import_at = Some(ii);
        }
        ii += 1;
    }
    proof {
        match import_at {
            Some(k) => {
                assert(in_import(*rain_document, target_offset as int));
            },
            None => {
                assert(!in_import(*rain_document, target_offset as int));
            },
        }
    }
    if let Some(ix) = import_at {
        let import = &rain_document.imports[ix];
        proof {
            assert(target_offset <= text@.len());
        }
        let a = if import.position.start <= target_offset {
            import.position.start
        } else {
            target_offset
        };
        let pretext = text.substring_ascii(a, target_offset);
        let chunks = exclusive_parse(pretext, TokenPattern::WhitespaceRun, 0, false);
        proof {
            lemma_kept_gap_spans_bounds(pretext@, TokenPattern::WhitespaceRun, false);
            assert forall|j: int|
                0 <= j < chunks@.len() implies (#[trigger] chunks@[j]).0.is_ascii() by {
                let sp = kept_gap_spans(pretext@, TokenPattern::WhitespaceRun, false)[j];
                assert(chunks@[j].0@ == pretext@.subrange(sp.0, sp.1));
                lemma_subrange_ascii(pretext@, sp.0, sp.1);
            }
            assert(pretext@ == import_pretext(*rain_document, position));
            assert(chunks@.len() == import_chunks(*rain_document, position).len());
            assert forall|j: int|
                0 <= j < chunks@.len() implies (#[trigger] chunks@[j]).0@ == import_chunks(
                *rain_document,
                position,
            )[j] by {
                let sp = kept_gap_spans(pretext@, TokenPattern::WhitespaceRun, false)[j];
                assert(chunks@[j].0@ == pretext@.subrange(sp.0, sp.1));
            }
        }
        if let Some(config) = &import.configuration {
            let mut at_pair_end = false;
            let mut pi: usize = 0;
            while pi < config.pairs.len()
                invariant
                    0 <= pi <= config.pairs@.len(),
                decreases config.pairs@.len() - pi,
            {
                if config.pairs[pi].0.1.end == target_offset {
                    at_pair_end = true;
                }
                pi += 1;
            }
            let mut result: Vec<CompletionItem> = Vec::new();
            if at_pair_end {
                let prefix = get_prefix(pretext, false);
                if let Some(sequence) = &import.sequence {
                    if let Some(dotrain_ns) = &sequence.dotrain {
                        if check_word(prefix.as_str()) {
                            // the resolution engine only hands ASCII
                            // content on; the type does not carry that
                            // fact, so it is rechecked here
                            let mut ok = true;
                            let mut ci: usize = 0;
                            while ci < dotrain_ns.entries.len()
                                invariant
                                    0 <= ci <= dotrain_ns.entries@.len(),
                                    ok ==> forall|i: int|
                                        0 <= i < ci ==> exp_content_ascii(#[trigger] dotrain_ns.entries@[i].1),
                                decreases dotrain_ns.entries@.len() - ci,
                            {
                                match &dotrain_ns.entries[ci].1 {
                                    NamespaceItem::Node(n) => match &n.element {
                                        NamespaceNodeElement::Binding(b) => match &b.item {
                                            BindingItem::Exp(_) => {
                                                if !b.content.as_str().is_ascii() {
                                                    ok = false;
                                                }
                                            },
                                            _ => {},
                                        },
                                        _ => {},
                                    },
                                    _ => {},
                                }
                                ci += 1;
                            }
                            if ok {
                                result = namespace_completion_items(
                                    dotrain_ns,
                                    documentation_format,
                                );
                            }
                        }
                    }
                }
            }
            return Some(result);
        }
        // import head: the hash is being typed
        if chunks.len() == 0 || chunks.len() >= 4 {
            proof {
                assert(hash_already_typed(*rain_document, position));
            }
            return None;
        }
        if chunks.len() >= 2 {
            if check_hex_literal(chunks[0].0.as_str()) {
                proof {
                    assert(crate::patterns::is_hex_literal(
                        import_chunks(*rain_document, position)[0],
                    ));
                    assert(hash_already_typed(*rain_document, position));
                }
                return None;
            }
        }
        if chunks.len() == 3 {
            if check_hex_literal(chunks[1].0.as_str()) {
                proof {
                    assert(crate::patterns::is_hex_literal(
                        import_chunks(*rain_document, position)[1],
                    ));
                    assert(hash_already_typed(*rain_document, position));
                }
                return None;
            }
        }
        proof {
            assert(!hash_already_typed(*rain_document, position));
        }
        let last = &chunks[chunks.len() - 1];
        let mut last_str = last.0.as_str();
        let mut last_len = last_str.unicode_len();
        // an import may address its hash through a leading at sign
        if last_len > 0 && last_str.get_char(0) == '@' {
            last_str = last_str.substring_ascii(1, last_len);
            last_len = last_len - 1;
        }
        let prefix = get_prefix(pretext, true);
        let prefix_len = prefix.as_str().unicode_len();
        let ghost plen: int = trigger_suffix_len(import_pretext(*rain_document, position), true) as int;
        proof {
            assert(prefix_len == plen);
            assert(store.dotrain_cache@.take(0) =~= Seq::<(String, Vec<u8>)>::empty());
        }
        let mut result: Vec<CompletionItem> = Vec::new();
        let mut di: usize = 0;
        while di < store.dotrain_cache.len()
            invariant
                0 <= di <= store.dotrain_cache@.len(),
                plen == trigger_suffix_len(import_pretext(*rain_document, position), true) as int,
                prefix_len == plen,
                result@.len() == other_docs(store.dotrain_cache@.take(di as int), uri@).len(),
                forall|e: int|
                    0 <= e < result@.len() ==> doc_hash_item_matches(
                        #[trigger] result@[e],
                        other_docs(store.dotrain_cache@.take(di as int), uri@)[e],
                        position,
                        plen,
                    ),
            decreases store.dotrain_cache@.len() - di,
        {
            proof {
                assert(store.dotrain_cache@.take(di + 1).drop_last() =~= store.dotrain_cache@
                    .take(di as int));
                assert(store.dotrain_cache@.take(di + 1).last() == store.dotrain_cache@[
                    di as int]);
            }
            let entry = &store.dotrain_cache[di];
            if !str_eq(entry.0.as_str(), uri) {
                let hex = encode_prefixed(&entry.1);
                let edit_start_char = if prefix_len <= position.character as usize {
                    position.character as usize - prefix_len
                } else {
                    0
                };
                result.push(
                    CompletionItem {
                        label: entry.0.clone(),
                        description: String::from_str("rain document"),
                        kind: CompletionItemKind::File,
                        detail: String::from_str("rain document at: ").concat(entry.0.as_str()),
                        insert_text: hex.clone(),
                        documentation: Some(hex.clone()),
                        text_edit: Some(
                            ReplaceRange {
                                start: Position {
                                    line: position.line,
                                    character: edit_start_char as u32,
                                },
                                end: position,
                                new_text: hex,
                            },
                        ),
                    },
                );
                proof {
                    assert(other_docs(store.dotrain_cache@.take(di + 1), uri@)
                        =~= other_docs(store.dotrain_cache@.take(di as int), uri@).push(
                        store.dotrain_cache@[di as int],
                    ));
                    assert(doc_hash_item_matches(
                        result@[result@.len() - 1],
                        store.dotrain_cache@[di as int],
                        position,
                        plen,
                    ));
                }
            } else {
                proof {
                    assert(other_docs(store.dotrain_cache@.take(di + 1), uri@)
                        =~= other_docs(store.dotrain_cache@.take(di as int), uri@));
                }
            }
            di += 1;
        }
        proof {
            assert(store.dotrain_cache@.take(store.dotrain_cache@.len() as int)
                =~= store.dotrain_cache@);
        }
        // a partial hash literal also offers every cached meta item
        let meta_start = if last_len >= 1 && last_str.get_char(0) == 'x' {
            true
        } else if last_len >= 2 && last_str.get_char(0) == '0' && last_str.get_char(1) == 'x' {
            true
        } else {
            false
        };
        proof {
            assert(meta_start == meta_hash_context(*rain_document, position));
        }
        let ghost docs = other_docs(store.dotrain_cache@, uri@);
        if meta_start {
            let mut mi: usize = 0;
            while mi < store.meta_hashes.len()
                invariant
                    0 <= mi <= store.meta_hashes@.len(),
                    plen == trigger_suffix_len(import_pretext(*rain_document, position), true) as int,
                    docs == other_docs(store.dotrain_cache@, uri@),
                    result@.len() == docs.len() + mi,
                    forall|e: int|
                        0 <= e < docs.len() ==> doc_hash_item_matches(
                            #[trigger] result@[e],
                            docs[e],
                            position,
                            plen,
                        ),
                    forall|h: int|
                        #![trigger store.meta_hashes@[h]]
                        0 <= h < mi ==> meta_hash_item_matches(
                            result@[docs.len() + h],
                            store.meta_hashes@[h],
                        ),
                decreases store.meta_hashes@.len() - mi,
            {
                let h = &store.meta_hashes[mi];
                let hex = encode_prefixed(h);
                let label = encode_x_prefixed(h);
                result.push(
                    CompletionItem {
                        label,
                        description: String::from_str("meta"),
                        kind: CompletionItemKind::Module,
                        detail: String::from_str("meta hash: ").concat(hex.as_str()),
                        insert_text: hex,
                        documentation: None,
                        text_edit: None,
                    },
                );
                proof {
                    let hv = store.meta_hashes@[mi as int]@;
                    assert(("meta hash: "@ + (seq!['0', 'x'] + hex_of(hv))) =~= "meta hash: "@
                        + seq!['0', 'x'] + hex_of(hv));
                    assert(meta_hash_item_matches(
                        result@[docs.len() + mi],
                        store.meta_hashes@[mi as int],
                    ));
                }
                mi += 1;
            }
        }
        return Some(result);
    }
    // outside any import: namespace-path context before the cursor
    let line_start = offset_at(text, &Position { line: position.line, character: 0 });
    let a = if line_start <= target_offset {
        line_start
    } else {
        target_offset
    };
    proof {
        assert(target_offset <= text@.len());
    }
    let pretext = text.substring_ascii(a, target_offset);
    let prefix_full = get_prefix(pretext, false);
    proof {
        assert(prefix_full@ == line_prefix(*rain_document, position));
    }
    let prefix_full_len = prefix_full.as_str().unicode_len();
    let is_quote = prefix_full_len > 0 && prefix_full.as_str().get_char(0) == '\'';
    let prefix = if is_quote {
        String::from_str(prefix_full.as_str().substring_ascii(1, prefix_full_len))
    } else {
        prefix_full
    };
    proof {
        if line_prefix(*rain_document, position).len() > 0 && line_prefix(
            *rain_document,
            position,
        )[0] == '\'' {
            assert(prefix@ =~= line_prefix(*rain_document, position).skip(1));
        }
        assert(prefix@ == stripped_prefix(*rain_document, position));
    }
    if !check_namespace_prefix(prefix.as_str()) {
        return None;
    }
    if contains_dot(prefix.as_str()) {
        match search_namespace(prefix.as_str(), &rain_document.namespace) {
            Some(m) => {
                let mut ok = true;
                let mut ci: usize = 0;
                while ci < m.entries.len()
                    invariant
                        0 <= ci <= m.entries@.len(),
                        ok ==> forall|i: int|
                            0 <= i < ci ==> exp_content_ascii(#[trigger] m.entries@[i].1),
                        !ok ==> exists|i: int|
                            0 <= i < ci && !exp_content_ascii(#[trigger] m.entries@[i].1),
                    decreases m.entries@.len() - ci,
                {
                    match &m.entries[ci].1 {
                        NamespaceItem::Node(n) => match &n.element {
                            NamespaceNodeElement::Binding(b) => match &b.item {
                                BindingItem::Exp(_) => {
                                    if !b.content.as_str().is_ascii() {
                                        proof {
                                            assert(!exp_content_ascii(
                                                m.entries@[ci as int].1,
                                            ));
                                        }
                                        ok = false;
                                    }
                                },
                                _ => {},
                            },
                            _ => {},
                        },
                        _ => {},
                    }
                    ci += 1;
                }
                if ok {
                    return Some(namespace_completion_items(m, documentation_format));
                } else {
                    return Some(Vec::new());
                }
            },
            None => {
                return None;
            },
        }
    }
    let mut result: Vec<CompletionItem> = Vec::new();
    if !is_quote {
        if let Some(am) = &rain_document.known_words {
            let mut wi: usize = 0;
            while wi < am.0.len()
                invariant
                    0 <= wi <= am.0@.len(),
                    am == rain_document.known_words->0,
                    result@.len() == wi,
                    forall|w: int|
                        #![trigger am.0@[w]]
                        0 <= w < wi ==> opcode_item_matches(result@[w], am.0@[w]),
                decreases am.0@.len() - wi,

            {
                let w = &am.0[wi];
                let ghost before = result@;
                result.push(
                    CompletionItem {
                        label: w.word.clone(),
                        description: String::from_str("opcode"),
                        kind: CompletionItemKind::Function,
                        detail: String::from_str("opcode: ").concat(w.word.as_str()),
                        insert_text: w.word.clone(),
                        documentation: Some(w.description.clone()),
                        text_edit: None,
                    },
                );
                proof {
                    assert(opcode_item_matches(result@[wi as int], am.0@[wi as int]));
                    assert(forall|w2: int|
                        #![trigger am.0@[w2]]
                        0 <= w2 < wi ==> result@[w2] == before[w2]);
                }
                wi += 1;
            }
            proof {
                assert(opcode_items_included(result@, rain_document.known_words->0));
            }
        }
        let ghost k1v = result@.len() as int;
        let mut bi: usize = 0;
        let mut found_binding: Option<usize> = None;
        proof {
            lemma_binding_at(rain_document.bindings@, target_offset as int);
        }
        while bi < rain_document.bindings.len()
            invariant
                0 <= bi <= rain_document.bindings@.len(),
                found_binding matches Some(k) ==> k < rain_document.bindings@.len() && k as int
                    == binding_at(rain_document.bindings@, target_offset as int),
                found_binding is None ==> forall|j: int|
                    0 <= j < bi ==> !((
                    #[trigger] rain_document.bindings@[j]).content_position.start
                        <= target_offset && target_offset
                        < rain_document.bindings@[j].content_position.end),
            decreases rain_document.bindings@.len() - bi,
        {
            let b = &rain_document.bindings[bi];
            if found_binding.is_none() && b.content_position.start <= target_offset
                && target_offset < b.content_position.end {
                proof {
                    lemma_binding_at(rain_document.bindings@, target_offset as int);
                    if binding_at(rain_document.bindings@, target_offset as int) < bi {
                        let bj = binding_at(rain_document.bindings@, target_offset as int);
                        assert(rain_document.bindings@[bj].content_position.start
                            <= target_offset && target_offset
                            < rain_document.bindings@[bj].content_position.end);
                    }
                }
                found_binding = Some(bi);
            }
            bi += 1;
        }
        if let Some(bx) = found_binding {
            let b = &rain_document.bindings[bx];
            if let BindingItem::Exp(rainlang_doc) = &b.item {
                let mut aliases = get_rainlang_src_alias_completions(
                    target_offset,
                    &rainlang_doc.ast,
                    b,
                    text,
                    documentation_format,
                );
                let ghost before = result@;
                let ghost appended = aliases@;
                result.append(&mut aliases);
                proof {
                    assert(result@ == before + appended);
                    assert(cursor_alias_candidates(*rain_document, target_offset as int)
                        == alias_candidates(
                        (rain_document.bindings@[bx as int].item->Exp_0).ast@,
                        rain_document.bindings@[bx as int],
                        rain_document.text@,
                        target_offset as int,
                    ));
                    if rain_document.known_words is Some && !is_quote {
                        lemma_opcode_items_append(
                            before,
                            appended,
                            rain_document.known_words->0,
                        );
                    }
                }
            } else {
                proof {
                    assert(cursor_alias_candidates(*rain_document, target_offset as int)
                        =~= Seq::<crate::ast::Alias>::empty());
                }
            }
        } else {
            proof {
                lemma_binding_at(rain_document.bindings@, target_offset as int);
                if binding_at(rain_document.bindings@, target_offset as int)
                    < rain_document.bindings@.len() {
                    let bj = binding_at(rain_document.bindings@, target_offset as int);
                    assert(rain_document.bindings@[bj].content_position.start <= target_offset
                        && target_offset < rain_document.bindings@[bj].content_position.end);
                }
                assert(cursor_alias_candidates(*rain_document, target_offset as int)
                    =~= Seq::<crate::ast::Alias>::empty());
            }
        }
        proof {
            let aliases = cursor_alias_candidates(*rain_document, target_offset as int);
            assert(result@.len() == k1v + aliases.len());
            assert forall|k: int|
                #![trigger aliases[k]]
                0 <= k < aliases.len() implies alias_item_matches(
                result@[k1v + k],
                aliases[k],
            ) by {
                assert(result@[k1v + k] == result@.subrange(k1v, result@.len() as int)[k]);
            }
        }
    }
    proof {
        assert(is_quote == (line_prefix(*rain_document, position).len() > 0 && line_prefix(
            *rain_document,
            position,
        )[0] == '\''));
    }
    let ghost before_ns = result@;
    let mut ns_items = namespace_completion_items(
        &rain_document.namespace,
        documentation_format,
    );
    let ghost ns_items_v = ns_items@;
    result.append(&mut ns_items);
    proof {
        assert(result@ == before_ns + ns_items_v);
        if rain_document.known_words is Some && !is_quote {
            lemma_opcode_items_append(before_ns, ns_items_v, rain_document.known_words->0);
        }
        let offered = offered_entries(rain_document.namespace.entries@);
        lemma_ns_items_included(
            before_ns,
            ns_items_v,
            rain_document.namespace.entries@,
            documentation_format,
        );
        if is_quote {
            // only namespace entries were gathered: fields and bindings
            assert forall|j: int|
                0 <= j < result@.len() implies (#[trigger] result@[j]).kind
                != CompletionItemKind::Function && result@[j].kind
                != CompletionItemKind::Variable by {
                assert(result@[j] == ns_items_v[j]);
                assert(item_matches_entry(
                    ns_items_v[j],
                    offered[j].0@,
                    offered[j].1,
                    documentation_format,
                ));
                match offered[j].1 {
                    NamespaceItem::Namespace(_) => {},
                    NamespaceItem::Node(_) => {},
                }
            }
        }
    }
    Some(result)
}

} // verus!
