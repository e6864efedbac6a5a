//! Discord markdown as plain values, and the parser that produces it.

use vstd::prelude::*;
use vstd::utf8::encode_utf8;
use discord_markdown::parser::Expression;

verus! {

/// A node of parsed Discord markdown.
#[derive(Debug)]
pub enum MarkdownNode {
    Text(String),
    /// A custom emoji: its name and its image file (`<id>.png` or `<id>.gif`).
    CustomEmoji(String, String),
    /// A user mention, by id.
    User(String),
    /// A role mention, by id.
    Role(String),
    /// A channel mention, by id.
    Channel(String),
    /// A link: its text and its target (both the URL for a plain link).
    Hyperlink(String, String),
    MultilineCode(String),
    InlineCode(String),
    Blockquote(Vec<MarkdownNode>),
    Spoiler(Vec<MarkdownNode>),
    Underline(Vec<MarkdownNode>),
    Strikethrough(Vec<MarkdownNode>),
    Bold(Vec<MarkdownNode>),
    Italics(Vec<MarkdownNode>),
    Newline,
}

#[verifier::external_type_specification]
#[verifier::external_body]
pub struct ExExpression<'a>(Expression<'a>);

/// What `discord_markdown::parser::parse` returns for the given text,
/// as plain values.
pub uninterp spec fn parsed_markdown(content: Seq<char>) -> Seq<MarkdownNode>;

/// The shrug emote, which the parser keeps as text as it is.
pub open spec fn shrug() -> Seq<char> {
    seq!['¯', '\\', '_', '(', 'ツ', ')', '_', '/', '¯']
}

/// True when the shrug emote starts at index `p` of `s`.
pub open spec fn shrug_at(s: Seq<char>, p: int) -> bool {
    0 <= p && p + 9 <= s.len() && s.subrange(p, p + 9) == shrug()
}

/// True when index `k` of `s` holds a backslash that escapes the next
/// character: it is followed by one, and it is not the backslash of a shrug
/// emote.
pub open spec fn is_escape(s: Seq<char>, k: int) -> bool {
    0 <= k && k + 1 < s.len() && s[k] == '\\' && !shrug_at(s, k - 1)
}

/// Index of the first character of the line that index `k` of `s` is on.
pub open spec fn line_start(s: Seq<char>, k: int) -> int
    decreases k,
{
    if k <= 0 {
        0
    } else if s[k - 1] == '\n' {
        k
    } else {
        line_start(s, k - 1)
    }
}

/// How many more bytes than characters the UTF-8 encoding of `s` has.
pub open spec fn extra_bytes(s: Seq<char>) -> int {
    encode_utf8(s).len() - s.len()
}

/// Characters at which a markup section of the parser can end: its closing
/// delimiters start with one of them, and a blockquote ends at a newline.
pub open spec fn ends_markup(c: char) -> bool {
    c == '*' || c == '_' || c == '~' || c == '|' || c == '\n'
}

/// Number of characters from index `i` on before the next character that can
/// end a markup section (or the end of `s`).
pub open spec fn plain_run(s: Seq<char>, i: int) -> int
    decreases s.len() - i,
{
    if i < 0 || i >= s.len() || ends_markup(s[i]) {
        0
    } else {
        1 + plain_run(s, i + 1)
    }
}

/// True when the parser finds the character escaped by the backslash at
/// index `k`.  The parser scans a piece of the text that starts no earlier
/// than the backslash's line and, when inside markup, ends no earlier than
/// the next character that can end markup.  It takes the backslash's byte
/// offset in that piece as a character index; the character there exists when
/// the line so far is ASCII, or when it has fewer extra bytes than there are
/// characters after the backslash before the next such character.
pub open spec fn escape_found(s: Seq<char>, k: int) -> bool {
    let extra = extra_bytes(s.subrange(line_start(s, k), k));
    extra == 0 || extra < plain_run(s, k + 1)
}

/// True when the parser finds the escaped character of every escaping
/// backslash (see [`escape_found`]).
pub open spec fn escapes_resolvable(s: Seq<char>) -> bool {
    forall|k: int| is_escape(s, k) ==> #[trigger] escape_found(s, k)
}

/// Calls `discord_markdown::parser::parse` and converts its tree node by node.
/// Nothing is claimed of the result beyond naming it: the parser is a
/// combinator grammar of several hundred lines.  The parser looks up the
/// escaped character of a backslash by character index using a byte offset,
/// and unwraps that lookup; `requires` keeps to text where the lookup is known
/// to succeed (see [`escape_found`]).
#[verifier::external_body]
fn parse_discord_markdown(content: &str) -> (nodes: Vec<MarkdownNode>)
    requires
        escapes_resolvable(content@),
    ensures
        nodes@ == parsed_markdown(content@),
{
    discord_markdown::parser::parse(content).iter().map(node_of).collect()
}

/// Converts one parser node (leaves; nested nodes go to `nested_node_of`).
#[verifier::external_body]
fn node_of(e: &Expression) -> MarkdownNode {
    match e {
        Expression::Text(t) => MarkdownNode::Text(t.to_string()),
        Expression::CustomEmoji(n, f) => MarkdownNode::CustomEmoji(n.to_string(), f.clone()),
        Expression::User(id) => MarkdownNode::User(id.to_string()),
        Expression::Role(id) => MarkdownNode::Role(id.to_string()),
        Expression::Channel(id) => MarkdownNode::Channel(id.to_string()),
        Expression::Hyperlink(l, t) => MarkdownNode::Hyperlink(l.to_string(), t.to_string()),
        Expression::MultilineCode(c) => MarkdownNode::MultilineCode(c.to_string()),
        Expression::InlineCode(c) => MarkdownNode::InlineCode(c.to_string()),
        nested => nested_node_of(nested),
    }
}

/// Converts one parser node that holds children (and `Newline`).
#[verifier::external_body]
fn nested_node_of(e: &Expression) -> MarkdownNode {
    match e {
        Expression::Blockquote(v) => MarkdownNode::Blockquote(v.iter().map(node_of).collect()),
        Expression::Spoiler(v) => MarkdownNode::Spoiler(v.iter().map(node_of).collect()),
        Expression::Underline(v) => MarkdownNode::Underline(v.iter().map(node_of).collect()),
        Expression::Strikethrough(v) => MarkdownNode::Strikethrough(v.iter().map(node_of).collect()),
        Expression::Bold(v) => MarkdownNode::Bold(v.iter().map(node_of).collect()),
        Expression::Italics(v) => MarkdownNode::Italics(v.iter().map(node_of).collect()),
        Expression::Newline => MarkdownNode::Newline,
        leaf => node_of(leaf),
    }
}

fn shrug_starts_at(chars: &Vec<char>, p: usize) -> (found: bool)
    ensures
        found == shrug_at(chars@, p as int),
{
    let pattern = vec!['¯', '\\', '_', '(', 'ツ', ')', '_', '/', '¯'];
    assert(pattern@ =~= shrug());
    if chars.len() < 9 || p > chars.len() - 9 {
        return false;
    }
    let len = chars.len();
    let mut t: usize = 0;
    while t < 9
        invariant
            t <= 9,
            len == chars@.len(),
            p + 9 <= chars@.len(),
            pattern@ == shrug(),
            forall|u: int| 0 <= u < t ==> chars@[p + u] == pattern@[u],
        decreases 9 - t,
    {
        if chars[p + t] != pattern[t] {
            assert(chars@.subrange(p as int, p + 9)[t as int] != shrug()[t as int]);
            return false;
        }
        t = t + 1;
    }
    assert(chars@.subrange(p as int, p + 9) =~= shrug());
    true
}

/// Number of characters from index `i` on before the next character that can
/// end markup (see [`plain_run`]).
fn plain_run_from(chars: &Vec<char>, i: usize) -> (run: usize)
    requires
        i <= chars@.len(),
    ensures
        run == plain_run(chars@, i as int),
{
    let n = chars.len();
    let mut j = i;
    while j < n && !(chars[j] == '*' || chars[j] == '_' || chars[j] == '~' || chars[j] == '|'
        || chars[j] == '\n')
        invariant
            n == chars@.len(),
            i <= j <= n,
            plain_run(chars@, i as int) == (j - i) + plain_run(chars@, j as int),
        decreases n - j,
    {
        j = j + 1;
    }
    j - i
}

/// Parses Discord markdown.  Returns `None` exactly when the parser might not
/// find the character escaped by some backslash (see
/// [`escapes_resolvable`]).  That test is a safe bound, not the parser's
/// exact behaviour: some texts the parser handles without panicking are
/// declined as well.  For example, on `é\**` (an `é`, a backslash and two
/// asterisks) the parser takes the second asterisk as the escaped character,
/// but this function returns `None`.  In general a message is declined when
/// an escaped markup character follows a non-ASCII character, such as an
/// emoji, on the same line.
pub fn parse_markdown(content: &str) -> (nodes: Option<Vec<MarkdownNode>>)
    ensures
        nodes is Some <==> escapes_resolvable(content@),
        nodes matches Some(v) ==> v@ == parsed_markdown(content@),
{
    let chars = crate::text::chars_of(content);
    let n = chars.len();
    let ghost s = content@;
    let mut extra: u128 = 0;
    let ghost mut ls: int = 0;
    let mut k: usize = 0;
    assert(s.subrange(0, 0) =~= Seq::<char>::empty());
    while k < n
        invariant
            n == chars@.len(),
            chars@ == s,
            s == content@,
            k <= n,
            0 <= ls <= k,
            ls == line_start(s, k as int),
            extra == extra_bytes(s.subrange(ls, k as int)),
            extra <= 3 * (k - ls),
            forall|kk: int| 0 <= kk < k && is_escape(s, kk) ==> #[trigger] escape_found(s, kk),
        decreases n - k,
    {
        let c = chars[k];
        let escape = c == '\\' && k + 1 < n && !(k >= 1 && shrug_starts_at(&chars, k - 1));
        assert(escape == is_escape(s, k as int));
        if escape {
            let run = plain_run_from(&chars, k + 1);
            if !(extra == 0 || extra < run as u128) {
                assert(!escape_found(s, k as int));
                assert(!escapes_resolvable(s));
                return None;
            }
        }
        let ghost old_ls = ls;
        let ghost line = s.subrange(ls, k as int);
        if c == '\n' {
            extra = 0;
            proof {
                ls = k + 1;
                assert(s.subrange(ls, k + 1) =~= Seq::<char>::empty());
            }
        } else {
            let w = crate::codeblock::utf8_width(c);
            proof {
                crate::text::lemma_encode_utf8_push(line, c);
                assert(s.subrange(ls, k + 1) =~= line.push(c));
            }
            extra = extra + (w as u128 - 1);
        }
        k = k + 1;
    }
    assert(escapes_resolvable(s));
    Some(parse_discord_markdown(content))
}

} // verus!
