//! Rendering parsed markdown into printer instructions.

use vstd::prelude::*;
use vstd::string::*;
use crate::codeblock::{block_fits, code_block, code_block_text};
use crate::instruction::{InstructionModel, PrinterInstruction, UnderlineMode};
use crate::markdown::MarkdownNode;

verus! {

/// The kind of a mention in a message.
#[derive(Debug, Clone, Copy, PartialEq, Eq, Structural)]
pub enum MentionKind {
    User,
    Role,
    Channel,
}

/// A mention whose name has to be looked up before the message is rendered.
#[derive(Debug)]
pub struct MentionRequest {
    pub kind: MentionKind,
    pub id: String,
}

impl DeepView for MentionRequest {
    type V = (MentionKind, Seq<char>);

    open spec fn deep_view(&self) -> (MentionKind, Seq<char>) {
        (self.kind, self.id@)
    }
}

/// The answer to a [`MentionRequest`].
#[derive(Debug)]
pub enum MentionLookup {
    /// The user, role or channel could not be resolved.
    NotFound,
    /// The name to print.
    Found(String),
}

/// The mentions of a node whose names are printed, in order.  A spoiler's
/// content is not printed, so its mentions are not looked up.
pub open spec fn node_mentions(n: MarkdownNode) -> Seq<(MentionKind, Seq<char>)>
    decreases n,
{
    match n {
        MarkdownNode::User(id) => seq![(MentionKind::User, id@)],
        MarkdownNode::Role(id) => seq![(MentionKind::Role, id@)],
        MarkdownNode::Channel(id) => seq![(MentionKind::Channel, id@)],
        MarkdownNode::Blockquote(v) => nodes_mentions(v@),
        MarkdownNode::Underline(v) => nodes_mentions(v@),
        MarkdownNode::Strikethrough(v) => nodes_mentions(v@),
        MarkdownNode::Bold(v) => nodes_mentions(v@),
        MarkdownNode::Italics(v) => nodes_mentions(v@),
        _ => Seq::empty(),
    }
}

/// The mentions of a list of nodes, in order.
pub open spec fn nodes_mentions(ns: Seq<MarkdownNode>) -> Seq<(MentionKind, Seq<char>)>
    decreases ns,
{
    if ns.len() == 0 {
        Seq::empty()
    } else {
        nodes_mentions(ns.drop_last()) + node_mentions(ns.last())
    }
}

fn collect_node_mentions(n: &MarkdownNode, out: &mut Vec<MentionRequest>)
    ensures
        final(out).deep_view() == old(out).deep_view() + node_mentions(*n),
    decreases n,
{
    let ghost before = out.deep_view();
    match n {
        MarkdownNode::User(id) => {
            out.push(MentionRequest { kind: MentionKind::User, id: id.clone() });
        },
        MarkdownNode::Role(id) => {
            out.push(MentionRequest { kind: MentionKind::Role, id: id.clone() });
        },
        MarkdownNode::Channel(id) => {
            out.push(MentionRequest { kind: MentionKind::Channel, id: id.clone() });
        },
        MarkdownNode::Blockquote(v) => {
            collect_nodes_mentions(v, out);
        },
        MarkdownNode::Underline(v) => {
            collect_nodes_mentions(v, out);
        },
        MarkdownNode::Strikethrough(v) => {
            collect_nodes_mentions(v, out);
        },
        MarkdownNode::Bold(v) => {
            collect_nodes_mentions(v, out);
        },
        MarkdownNode::Italics(v) => {
            collect_nodes_mentions(v, out);
        },
        _ => {},
    }
    assert(out.deep_view() =~= before + node_mentions(*n));
}

fn collect_nodes_mentions(ns: &Vec<MarkdownNode>, out: &mut Vec<MentionRequest>)
    ensures
        final(out).deep_view() == old(out).deep_view() + nodes_mentions(ns@),
    decreases ns,
{
    let ghost before = out.deep_view();
    assert(ns@.take(0) =~= Seq::<MarkdownNode>::empty());
    let mut i: usize = 0;
    while i < ns.len()
        invariant
            i <= ns@.len(),
            out.deep_view() == before + nodes_mentions(ns@.take(i as int)),
        decreases ns@.len() - i,
    {
        collect_node_mentions(&ns[i], out);
        i = i + 1;
        proof {
            assert(ns@.take(i as int).drop_last() =~= ns@.take(i - 1));
            assert(ns@.take(i as int).last() == ns@[i - 1]);
        }
    }
    assert(ns@.take(ns@.len() as int) =~= ns@);
}

/// The mentions that [`render_nodes`] prints, in the order it consumes
/// their lookups.
pub fn mention_requests(nodes: &Vec<MarkdownNode>) -> (requests: Vec<MentionRequest>)
    ensures
        requests.deep_view() == nodes_mentions(nodes@),
{
    let mut requests: Vec<MentionRequest> = Vec::new();
    collect_nodes_mentions(nodes, &mut requests);
    assert(requests.deep_view() =~= nodes_mentions(nodes@));
    requests
}

/// True when `needle` occurs in `hay`.
pub open spec fn contains_seq(hay: Seq<char>, needle: Seq<char>) -> bool {
    exists|i: int|
        0 <= i && i + needle.len() <= hay.len() && #[trigger] hay.subrange(i, i + needle.len())
            == needle
}

/// True when a link names an image file: it contains `.jpg`, `.jpeg`, `.png`,
/// `.webp` or `.gif`.
pub open spec fn is_image_link(link: Seq<char>) -> bool {
    ||| contains_seq(link, ".jpg"@)
    ||| contains_seq(link, ".jpeg"@)
    ||| contains_seq(link, ".png"@)
    ||| contains_seq(link, ".webp"@)
    ||| contains_seq(link, ".gif"@)
}

/// Compiles `pattern` with `regex::Regex::new` and tells whether
/// `Regex::captures` finds a match anywhere in `haystack`.  Both patterns used
/// here are valid (so the `unwrap` cannot fail) and unanchored; the first
/// matches a dot followed by one of five extensions, the second the literal
/// text `image/`, so a match exists exactly when the haystack contains one of
/// those strings.
#[verifier::external_body]
fn regex_finds(pattern: &str, haystack: &str) -> (found: bool)
    requires
        pattern@ == "\\.(jpg|jpeg|png|webp|gif)"@ || pattern@ == "image/"@,
    ensures
        pattern@ == "\\.(jpg|jpeg|png|webp|gif)"@ ==> found == is_image_link(haystack@),
        pattern@ == "image/"@ ==> found == contains_seq(haystack@, "image/"@),
{
    regex::Regex::new(pattern).unwrap().captures(haystack).is_some()
}

/// Whether a link is printed as an image (see [`is_image_link`]).
pub fn link_is_image(link: &str) -> (image: bool)
    ensures
        image == is_image_link(link@),
{
    regex_finds("\\.(jpg|jpeg|png|webp|gif)", link)
}

/// Whether an attachment's content type marks it as an image (it contains
/// `image/`).
pub fn content_type_is_image(content_type: &str) -> (image: bool)
    ensures
        image == contains_seq(content_type@, "image/"@),
{
    regex_finds("image/", content_type)
}

/// Text printed reversed (white on black).
pub open spec fn highlighted(text: Seq<char>) -> Seq<InstructionModel> {
    seq![InstructionModel::Reverse(true), InstructionModel::Text(text), InstructionModel::Reverse(false)]
}

/// Instructions between an opening and a closing instruction.
pub open spec fn enclosed(
    open: InstructionModel,
    inner: Seq<InstructionModel>,
    close: InstructionModel,
) -> Seq<InstructionModel> {
    seq![open] + inner + seq![close]
}

/// The label of a mention: the prefix and the looked-up name, or the
/// `unknown` text when the lookup failed.
pub open spec fn mention_label(
    prefix: Seq<char>,
    unknown: Seq<char>,
    lookups: Seq<MentionLookup>,
) -> Seq<char> {
    if lookups.len() > 0 {
        match lookups[0] {
            MentionLookup::Found(name) => prefix + name@,
            MentionLookup::NotFound => unknown,
        }
    } else {
        unknown
    }
}

/// The URL of a custom emoji's image, from its file name.
pub open spec fn custom_emoji_url(file: Seq<char>) -> Seq<char> {
    "https://cdn.discordapp.com/emojis/"@ + file + "?size=64"@
}

/// How one node is printed; `lookups` answers the node's mentions
/// ([`node_mentions`]) in order.
pub open spec fn render_node(n: MarkdownNode, lookups: Seq<MentionLookup>) -> Seq<InstructionModel>
    decreases n,
{
    match n {
        MarkdownNode::Text(t) => seq![InstructionModel::Text(t@)],
        MarkdownNode::CustomEmoji(_, file) => seq![InstructionModel::Image(custom_emoji_url(file@))],
        MarkdownNode::User(_) => highlighted(mention_label("@"@, "@Unknown User"@, lookups)),
        MarkdownNode::Role(_) => highlighted(mention_label("@"@, "@Unknown Role"@, lookups)),
        MarkdownNode::Channel(_) => highlighted(mention_label("#"@, "#Unknown Channel"@, lookups)),
        MarkdownNode::Hyperlink(link, _) => if is_image_link(link@) {
            seq![InstructionModel::Image(link@)]
        } else {
            enclosed(
                InstructionModel::Underline(UnderlineMode::Single),
                seq![InstructionModel::Text(link@)],
                InstructionModel::Underline(UnderlineMode::Off),
            )
        },
        MarkdownNode::MultilineCode(code) => highlighted(code_block(code@)),
        MarkdownNode::InlineCode(code) => highlighted(code@),
        MarkdownNode::Blockquote(v) => enclosed(
            InstructionModel::Text("\""@),
            render_nodes(v@, lookups),
            InstructionModel::Text("\"\n"@),
        ),
        MarkdownNode::Spoiler(_) => highlighted(" SPOILER "@),
        MarkdownNode::Underline(v) => enclosed(
            InstructionModel::Underline(UnderlineMode::Single),
            render_nodes(v@, lookups),
            InstructionModel::Underline(UnderlineMode::Off),
        ),
        MarkdownNode::Strikethrough(v) => enclosed(
            InstructionModel::Strike(true),
            render_nodes(v@, lookups),
            InstructionModel::Strike(false),
        ),
        MarkdownNode::Bold(v) => enclosed(
            InstructionModel::Bold(true),
            render_nodes(v@, lookups),
            InstructionModel::Bold(false),
        ),
        MarkdownNode::Italics(v) => enclosed(
            InstructionModel::Italic(true),
            render_nodes(v@, lookups),
            InstructionModel::Italic(false),
        ),
        MarkdownNode::Newline => seq![InstructionModel::Text("\n"@)],
    }
}

/// How a list of nodes is printed: node after node, each answered by its own
/// share of `lookups`.
pub open spec fn render_nodes(ns: Seq<MarkdownNode>, lookups: Seq<MentionLookup>) -> Seq<
    InstructionModel,
>
    decreases ns,
{
    if ns.len() == 0 {
        Seq::empty()
    } else {
        let k = nodes_mentions(ns.drop_last()).len() as int;
        render_nodes(ns.drop_last(), lookups.take(k)) + render_node(ns.last(), lookups.skip(k))
    }
}

/// True when every code block that is printed can be laid out
/// ([`block_fits`]).
pub open spec fn node_printable(n: MarkdownNode) -> bool
    decreases n,
{
    match n {
        MarkdownNode::MultilineCode(code) => block_fits(code@),
        MarkdownNode::Blockquote(v) => nodes_printable(v@),
        MarkdownNode::Underline(v) => nodes_printable(v@),
        MarkdownNode::Strikethrough(v) => nodes_printable(v@),
        MarkdownNode::Bold(v) => nodes_printable(v@),
        MarkdownNode::Italics(v) => nodes_printable(v@),
        _ => true,
    }
}

/// True when every node of the list is printable ([`node_printable`]).
pub open spec fn nodes_printable(ns: Seq<MarkdownNode>) -> bool
    decreases ns,
{
    ns.len() == 0 || (nodes_printable(ns.drop_last()) && node_printable(ns.last()))
}

fn node_is_printable(n: &MarkdownNode) -> (ok: bool)
    ensures
        ok == node_printable(*n),
    decreases n,
{
    match n {
        MarkdownNode::MultilineCode(code) => crate::codeblock::code_block_fits(code.as_str()),
        MarkdownNode::Blockquote(v) => nodes_are_printable(v),
        MarkdownNode::Underline(v) => nodes_are_printable(v),
        MarkdownNode::Strikethrough(v) => nodes_are_printable(v),
        MarkdownNode::Bold(v) => nodes_are_printable(v),
        MarkdownNode::Italics(v) => nodes_are_printable(v),
        _ => true,
    }
}

fn nodes_are_printable(ns: &Vec<MarkdownNode>) -> (ok: bool)
    ensures
        ok == nodes_printable(ns@),
    decreases ns,
{
    let mut ok = true;
    let mut i: usize = 0;
    assert(ns@.take(0) =~= Seq::<MarkdownNode>::empty());
    while i < ns.len()
        invariant
            i <= ns@.len(),
            ok == nodes_printable(ns@.take(i as int)),
        decreases ns@.len() - i,
    {
        let this_ok = node_is_printable(&ns[i]);
        ok = ok && this_ok;
        i = i + 1;
        proof {
            assert(ns@.take(i as int).drop_last() =~= ns@.take(i - 1));
            assert(ns@.take(i as int).last() == ns@[i - 1]);
        }
    }
    assert(ns@.take(ns@.len() as int) =~= ns@);
    ok
}

/// Whether every code block of the markdown can be laid out
/// ([`nodes_printable`]).
pub fn markdown_printable(nodes: &Vec<MarkdownNode>) -> (ok: bool)
    ensures
        ok == nodes_printable(nodes@),
{
    nodes_are_printable(nodes)
}

proof fn lemma_mentions_prefix(ns: Seq<MarkdownNode>, k: int)
    requires
        0 <= k <= ns.len(),
    ensures
        nodes_mentions(ns.take(k)).len() + node_mentions_after(ns, k) == nodes_mentions(ns).len(),
    decreases ns.len(),
{
    if k == ns.len() {
        assert(ns.take(k) =~= ns);
    } else {
        lemma_mentions_prefix(ns.drop_last(), k);
        assert(ns.drop_last().take(k) =~= ns.take(k));
    }
}

/// Number of mentions in the nodes from index `k` on.
spec fn node_mentions_after(ns: Seq<MarkdownNode>, k: int) -> int
    decreases ns.len(),
{
    if ns.len() <= k || ns.len() == 0 {
        0
    } else {
        node_mentions_after(ns.drop_last(), k) + node_mentions(ns.last()).len()
    }
}

proof fn lemma_printable_each(ns: Seq<MarkdownNode>, i: int)
    requires
        nodes_printable(ns),
        0 <= i < ns.len(),
    ensures
        node_printable(ns[i]),
    decreases ns.len(),
{
    if i < ns.len() - 1 {
        lemma_printable_each(ns.drop_last(), i);
    }
}

fn highlight_into(out: &mut Vec<PrinterInstruction>, text: String)
    ensures
        final(out).deep_view() == old(out).deep_view() + highlighted(text@),
{
    let ghost before = out.deep_view();
    let ghost t = text@;
    out.push(PrinterInstruction::Reverse(true));
    out.push(PrinterInstruction::Text(text));
    out.push(PrinterInstruction::Reverse(false));
    assert(out.deep_view() =~= before + highlighted(t));
}

fn label_for(prefix: &str, unknown: &str, lookup: &MentionLookup) -> (label: String)
    ensures
        label@ == mention_label(prefix@, unknown@, seq![*lookup]),
{
    match lookup {
        MentionLookup::Found(name) => {
            let mut label = String::from_str(prefix);
            label.append(name.as_str());
            label
        },
        MentionLookup::NotFound => String::from_str(unknown),
    }
}

fn render_node_into(
    n: &MarkdownNode,
    lookups: &Vec<MentionLookup>,
    start: usize,
    out: &mut Vec<PrinterInstruction>,
) -> (used: usize)
    requires
        start + node_mentions(*n).len() <= lookups@.len(),
        node_printable(*n),
    ensures
        used == node_mentions(*n).len(),
        final(out).deep_view() == old(out).deep_view() + render_node(
            *n,
            lookups@.subrange(start as int, start + used),
        ),
    decreases n,
{
    let ghost before = out.deep_view();
    let mut used: usize = 0;
    match n {
        MarkdownNode::Text(t) => {
            out.push(PrinterInstruction::Text(t.clone()));
        },
        MarkdownNode::CustomEmoji(_, file) => {
            let mut url = String::from_str("https://cdn.discordapp.com/emojis/");
            url.append(file.as_str());
            url.append("?size=64");
            out.push(PrinterInstruction::Image(url));
        },
        MarkdownNode::User(_) => {
            assert(lookups@.subrange(start as int, start + 1) =~= seq![lookups@[start as int]]);
            highlight_into(out, label_for("@", "@Unknown User", &lookups[start]));
            used = 1;
        },
        MarkdownNode::Role(_) => {
            assert(lookups@.subrange(start as int, start + 1) =~= seq![lookups@[start as int]]);
            highlight_into(out, label_for("@", "@Unknown Role", &lookups[start]));
            used = 1;
        },
        MarkdownNode::Channel(_) => {
            assert(lookups@.subrange(start as int, start + 1) =~= seq![lookups@[start as int]]);
            highlight_into(out, label_for("#", "#Unknown Channel", &lookups[start]));
            used = 1;
        },
        MarkdownNode::Hyperlink(link, _) => {
            if link_is_image(link.as_str()) {
                out.push(PrinterInstruction::Image(link.clone()));
            } else {
                out.push(PrinterInstruction::Underline(UnderlineMode::Single));
                out.push(PrinterInstruction::Text(link.clone()));
                out.push(PrinterInstruction::Underline(UnderlineMode::Off));
            }
        },
        MarkdownNode::MultilineCode(code) => {
            highlight_into(out, code_block_text(code.as_str()));
        },
        MarkdownNode::InlineCode(code) => {
            highlight_into(out, code.clone());
        },
        MarkdownNode::Blockquote(v) => {
            out.push(PrinterInstruction::Text(String::from_str("\"")));
            let ghost mid = out.deep_view();
            used = render_nodes_into(v, lookups, start, out);
            let ghost inner = out.deep_view();
            out.push(PrinterInstruction::Text(String::from_str("\"\n")));
            assert(inner =~= mid + render_nodes(v@, lookups@.subrange(start as int, start + used)));
            assert(out.deep_view() =~= inner.push(out.deep_view().last()));
        },
        MarkdownNode::Spoiler(_) => {
            highlight_into(out, String::from_str(" SPOILER "));
        },
        MarkdownNode::Underline(v) => {
            out.push(PrinterInstruction::Underline(UnderlineMode::Single));
            let ghost mid = out.deep_view();
            used = render_nodes_into(v, lookups, start, out);
            let ghost inner = out.deep_view();
            out.push(PrinterInstruction::Underline(UnderlineMode::Off));
            assert(inner =~= mid + render_nodes(v@, lookups@.subrange(start as int, start + used)));
            assert(out.deep_view() =~= inner.push(out.deep_view().last()));
        },
        MarkdownNode::Strikethrough(v) => {
            out.push(PrinterInstruction::Strike(true));
            let ghost mid = out.deep_view();
            used = render_nodes_into(v, lookups, start, out);
            let ghost inner = out.deep_view();
            out.push(PrinterInstruction::Strike(false));
            assert(inner =~= mid + render_nodes(v@, lookups@.subrange(start as int, start + used)));
            assert(out.deep_view() =~= inner.push(out.deep_view().last()));
        },
        MarkdownNode::Bold(v) => {
            out.push(PrinterInstruction::Bold(true));
            let ghost mid = out.deep_view();
            used = render_nodes_into(v, lookups, start, out);
            let ghost inner = out.deep_view();
            out.push(PrinterInstruction::Bold(false));
            assert(inner =~= mid + render_nodes(v@, lookups@.subrange(start as int, start + used)));
            assert(out.deep_view() =~= inner.push(out.deep_view().last()));
        },
        MarkdownNode::Italics(v) => {
            out.push(PrinterInstruction::Italic(true));
            let ghost mid = out.deep_view();
            used = render_nodes_into(v, lookups, start, out);
            let ghost inner = out.deep_view();
            out.push(PrinterInstruction::Italic(false));
            assert(inner =~= mid + render_nodes(v@, lookups@.subrange(start as int, start + used)));
            assert(out.deep_view() =~= inner.push(out.deep_view().last()));
        },
        MarkdownNode::Newline => {
            out.push(PrinterInstruction::Text(String::from_str("\n")));
        },
    }
    assert(out.deep_view() =~= before + render_node(*n, lookups@.subrange(start as int, start + used)));
    used
}

fn render_nodes_into(
    ns: &Vec<MarkdownNode>,
    lookups: &Vec<MentionLookup>,
    start: usize,
    out: &mut Vec<PrinterInstruction>,
) -> (used: usize)
    requires
        start + nodes_mentions(ns@).len() <= lookups@.len(),
        nodes_printable(ns@),
    ensures
        used == nodes_mentions(ns@).len(),
        final(out).deep_view() == old(out).deep_view() + render_nodes(
            ns@,
            lookups@.subrange(start as int, start + used),
        ),
    decreases ns,
{
    let ghost before = out.deep_view();
    let n_lookups = lookups.len();
    let mut pos: usize = 0;
    let mut i: usize = 0;
    assert(ns@.take(0) =~= Seq::<MarkdownNode>::empty());
    while i < ns.len()
        invariant
            i <= ns@.len(),
            start + nodes_mentions(ns@).len() <= lookups@.len(),
            n_lookups == lookups@.len(),
            nodes_printable(ns@),
            pos == nodes_mentions(ns@.take(i as int)).len(),
            out.deep_view() == before + render_nodes(
                ns@.take(i as int),
                lookups@.subrange(start as int, start + pos),
            ),
        decreases ns@.len() - i,
    {
        proof {
            lemma_mentions_prefix(ns@, i as int);
            lemma_mentions_prefix(ns@, i + 1);
            assert(ns@.take(i + 1).drop_last() =~= ns@.take(i as int));
            assert(ns@.take(i + 1).last() == ns@[i as int]);
            lemma_printable_each(ns@, i as int);
            lemma_after_first(ns@, i as int);
            assert(pos + node_mentions(ns@[i as int]).len() <= nodes_mentions(ns@).len());
            assert(start + pos + node_mentions(ns@[i as int]).len() <= lookups@.len());
        }
        let u = render_node_into(&ns[i], lookups, start + pos, out);
        let ghost old_pos = pos as int;
        pos = pos + u;
        i = i + 1;
        proof {
            let all = lookups@.subrange(start as int, start + pos);
            assert(all.take(old_pos) =~= lookups@.subrange(start as int, start + old_pos));
            assert(all.skip(old_pos) =~= lookups@.subrange(start + old_pos, start + pos));
            assert(out.deep_view() =~= before + render_nodes(ns@.take(i as int), all));
        }
    }
    assert(ns@.take(ns@.len() as int) =~= ns@);
    pos
}

proof fn lemma_after_first(ns: Seq<MarkdownNode>, k: int)
    requires
        0 <= k < ns.len(),
    ensures
        node_mentions_after(ns, k) >= node_mentions(ns[k]).len(),
    decreases ns.len(),
{
    if k < ns.len() - 1 {
        lemma_after_first(ns.drop_last(), k);
    } else {
        assert(node_mentions_after(ns.drop_last(), k) == 0);
    }
}

/// Renders markdown into printer instructions (see [`render_nodes`]).
/// `lookups` answers [`mention_requests`] of the same nodes, in order.
pub fn render_markdown(nodes: &Vec<MarkdownNode>, lookups: &Vec<MentionLookup>) -> (out: Vec<
    PrinterInstruction,
>)
    requires
        lookups@.len() == nodes_mentions(nodes@).len(),
        nodes_printable(nodes@),
    ensures
        out.deep_view() == render_nodes(nodes@, lookups@),
{
    let mut out: Vec<PrinterInstruction> = Vec::new();
    let used = render_nodes_into(nodes, lookups, 0, &mut out);
    assert(lookups@.subrange(0, used as int) =~= lookups@);
    assert(out.deep_view() =~= render_nodes(nodes@, lookups@));
    out
}

/// Where a message was posted, as far as its channel could be resolved.
#[derive(Debug)]
pub enum ChannelOrigin {
    /// A server channel, by name.
    Named(String),
    /// A channel that is not a server channel.
    Unnamed,
    /// The channel could not be fetched: a direct message.
    DirectMessages,
}

/// A file attached to a message.
#[derive(Debug)]
pub struct Attachment {
    pub filename: String,
    pub content_type: Option<String>,
    /// The URL the file can be downloaded from.
    pub proxy_url: String,
}

/// The name printed for a channel.
pub open spec fn channel_label(c: ChannelOrigin) -> Seq<char> {
    match c {
        ChannelOrigin::Named(name) => "#"@ + name@,
        ChannelOrigin::Unnamed => "#Unknown Channel"@,
        ChannelOrigin::DirectMessages => "Direct Messages"@,
    }
}

/// The heading of a printed message: author and channel, highlighted.
pub open spec fn message_header(author: Seq<char>, channel: ChannelOrigin) -> Seq<InstructionModel> {
    highlighted("@"@ + author) + seq![InstructionModel::Text(" in "@)] + highlighted(
        channel_label(channel),
    ) + seq![InstructionModel::Text("\n\n"@)]
}

/// Sticker images that have a URL are printed.
pub open spec fn stickers_instructions(stickers: Seq<Option<String>>) -> Seq<InstructionModel>
    decreases stickers.len(),
{
    if stickers.len() == 0 {
        Seq::empty()
    } else {
        stickers_instructions(stickers.drop_last()) + match stickers.last() {
            Some(url) => seq![InstructionModel::Image(url@)],
            None => Seq::empty(),
        }
    }
}

/// An attachment with a content type is printed as its underlined file
/// name, followed by the file itself when it is an image.
pub open spec fn attachment_instructions(a: Attachment) -> Seq<InstructionModel> {
    match a.content_type {
        Some(t) => enclosed(
            InstructionModel::Underline(UnderlineMode::Single),
            seq![InstructionModel::Text("\n\nFile: "@ + a.filename@)],
            InstructionModel::Underline(UnderlineMode::Off),
        ) + if contains_seq(t@, "image/"@) {
            seq![InstructionModel::Image(a.proxy_url@)]
        } else {
            Seq::empty()
        },
        None => Seq::empty(),
    }
}

/// All attachments, in order.
pub open spec fn attachments_instructions(atts: Seq<Attachment>) -> Seq<InstructionModel>
    decreases atts.len(),
{
    if atts.len() == 0 {
        Seq::empty()
    } else {
        attachments_instructions(atts.drop_last()) + attachment_instructions(atts.last())
    }
}

/// A whole printed message: heading, content, stickers, attachments, and a
/// final cut.
pub open spec fn message_instructions(
    author: Seq<char>,
    channel: ChannelOrigin,
    nodes: Seq<MarkdownNode>,
    lookups: Seq<MentionLookup>,
    stickers: Seq<Option<String>>,
    attachments: Seq<Attachment>,
) -> Seq<InstructionModel> {
    message_header(author, channel) + render_nodes(nodes, lookups) + stickers_instructions(stickers)
        + attachments_instructions(attachments) + seq![InstructionModel::PrintCut]
}

/// Whether a message is printed.  Messages in a server whose `@everyone`
/// role lacks the permission to view channels are not printed.
/// `everyone_can_view` is `None` outside a server or when the server has no
/// `@everyone` role.
pub fn should_print(everyone_can_view: Option<bool>) -> (print: bool)
    ensures
        print == (everyone_can_view != Some(false)),
{
    match everyone_can_view {
        Some(can_view) => can_view,
        None => true,
    }
}

/// The name shown for a member: the nickname when there is one.
pub fn member_display_name(name: &String, nickname: &Option<String>) -> (shown: String)
    ensures
        shown@ == match nickname {
            Some(nick) => nick@,
            None => name@,
        },
{
    match nickname {
        Some(nick) => nick.clone(),
        None => name.clone(),
    }
}

fn push_header(out: &mut Vec<PrinterInstruction>, author: &str, channel: &ChannelOrigin)
    ensures
        final(out).deep_view() == old(out).deep_view() + message_header(author@, *channel),
{
    let ghost before = out.deep_view();
    let mut who = String::from_str("@");
    who.append(author);
    highlight_into(out, who);
    out.push(PrinterInstruction::Text(String::from_str(" in ")));
    let ghost first = out.deep_view();
    assert(first =~= before + highlighted("@"@ + author@) + seq![InstructionModel::Text(" in "@)]);
    let label = match channel {
        ChannelOrigin::Named(name) => {
            let mut label = String::from_str("#");
            label.append(name.as_str());
            label
        },
        ChannelOrigin::Unnamed => String::from_str("#Unknown Channel"),
        ChannelOrigin::DirectMessages => String::from_str("Direct Messages"),
    };
    assert(label@ == channel_label(*channel));
    highlight_into(out, label);
    let ghost second = out.deep_view();
    out.push(PrinterInstruction::Text(String::from_str("\n\n")));
    assert(out.deep_view() =~= second + seq![InstructionModel::Text("\n\n"@)]);
    assert(out.deep_view() =~= before + message_header(author@, *channel));
}

fn push_stickers(out: &mut Vec<PrinterInstruction>, stickers: &Vec<Option<String>>)
    ensures
        final(out).deep_view() == old(out).deep_view() + stickers_instructions(stickers@),
{
    let ghost before = out.deep_view();
    let mut i: usize = 0;
    assert(stickers@.take(0) =~= Seq::<Option<String>>::empty());
    while i < stickers.len()
        invariant
            i <= stickers@.len(),
            out.deep_view() == before + stickers_instructions(stickers@.take(i as int)),
        decreases stickers@.len() - i,
    {
        let ghost prev = out.deep_view();
        match &stickers[i] {
            Some(url) => {
                out.push(PrinterInstruction::Image(url.clone()));
            },
            None => {},
        }
        proof {
            let extra = match stickers@[i as int] {
                Some(url) => seq![InstructionModel::Image(url@)],
                None => Seq::<InstructionModel>::empty(),
            };
            assert(out.deep_view() =~= prev + extra);
        }
        i = i + 1;
        proof {
            assert(stickers@.take(i as int).drop_last() =~= stickers@.take(i - 1));
            assert(stickers@.take(i as int).last() == stickers@[i - 1]);
            assert(out.deep_view() =~= before + stickers_instructions(stickers@.take(i as int)));
        }
    }
    assert(stickers@.take(stickers@.len() as int) =~= stickers@);
}

fn push_attachments(out: &mut Vec<PrinterInstruction>, attachments: &Vec<Attachment>)
    ensures
        final(out).deep_view() == old(out).deep_view() + attachments_instructions(attachments@),
{
    let ghost before = out.deep_view();
    let mut i: usize = 0;
    assert(attachments@.take(0) =~= Seq::<Attachment>::empty());
    while i < attachments.len()
        invariant
            i <= attachments@.len(),
            out.deep_view() == before + attachments_instructions(attachments@.take(i as int)),
        decreases attachments@.len() - i,
    {
        let ghost prev = out.deep_view();
        let a = &attachments[i];
        match &a.content_type {
            Some(t) => {
                out.push(PrinterInstruction::Underline(UnderlineMode::Single));
                let mut text = String::from_str("\n\nFile: ");
                text.append(a.filename.as_str());
                out.push(PrinterInstruction::Text(text));
                out.push(PrinterInstruction::Underline(UnderlineMode::Off));
                if content_type_is_image(t.as_str()) {
                    out.push(PrinterInstruction::Image(a.proxy_url.clone()));
                }
            },
            None => {},
        }
        proof {
            assert(out.deep_view() =~= prev + attachment_instructions(*a));
        }
        i = i + 1;
        proof {
            assert(attachments@.take(i as int).drop_last() =~= attachments@.take(i - 1));
            assert(attachments@.take(i as int).last() == attachments@[i - 1]);
            assert(out.deep_view() =~= before + attachments_instructions(attachments@.take(i as int)));
        }
    }
    assert(attachments@.take(attachments@.len() as int) =~= attachments@);
}

/// Renders a whole message (see [`message_instructions`]).  `lookups`
/// answers [`mention_requests`] of `nodes`, in order.
pub fn render_message(
    author: &str,
    channel: &ChannelOrigin,
    nodes: &Vec<MarkdownNode>,
    lookups: &Vec<MentionLookup>,
    stickers: &Vec<Option<String>>,
    attachments: &Vec<Attachment>,
) -> (out: Vec<PrinterInstruction>)
    requires
        lookups@.len() == nodes_mentions(nodes@).len(),
        nodes_printable(nodes@),
    ensures
        out.deep_view() == message_instructions(
            author@,
            *channel,
            nodes@,
            lookups@,
            stickers@,
            attachments@,
        ),
{
    let mut out: Vec<PrinterInstruction> = Vec::new();
    push_header(&mut out, author, channel);
    let used = render_nodes_into(nodes, lookups, 0, &mut out);
    assert(lookups@.subrange(0, used as int) =~= lookups@);
    push_stickers(&mut out, stickers);
    push_attachments(&mut out, attachments);
    out.push(PrinterInstruction::PrintCut);
    assert(out.deep_view() =~= message_instructions(
        author@,
        *channel,
        nodes@,
        lookups@,
        stickers@,
        attachments@,
    ));
    out
}

/// How often `x` occurs in `s`.
pub open spec fn count_of(s: Seq<InstructionModel>, x: InstructionModel) -> nat
    decreases s.len(),
{
    if s.len() == 0 {
        0
    } else {
        count_of(s.drop_last(), x) + if s.last() == x {
            1nat
        } else {
            0nat
        }
    }
}

/// How many more times `on` occurs in `s` than `off`.
pub open spec fn style_delta(s: Seq<InstructionModel>, on: InstructionModel, off: InstructionModel) -> int {
    count_of(s, on) - count_of(s, off)
}

/// The instructions that turn a style on and off again.
pub open spec fn is_style_pair(on: InstructionModel, off: InstructionModel) -> bool {
    ||| on == InstructionModel::Reverse(true) && off == InstructionModel::Reverse(false)
    ||| on == InstructionModel::Underline(UnderlineMode::Single) && off
        == InstructionModel::Underline(UnderlineMode::Off)
    ||| on == InstructionModel::Strike(true) && off == InstructionModel::Strike(false)
    ||| on == InstructionModel::Bold(true) && off == InstructionModel::Bold(false)
    ||| on == InstructionModel::Italic(true) && off == InstructionModel::Italic(false)
}

/// Every style that is turned on is turned off as often.
pub open spec fn styles_balanced(s: Seq<InstructionModel>) -> bool {
    forall|on: InstructionModel, off: InstructionModel|
        is_style_pair(on, off) ==> #[trigger] style_delta(s, on, off) == 0
}

proof fn lemma_count_concat(a: Seq<InstructionModel>, b: Seq<InstructionModel>, x: InstructionModel)
    ensures
        count_of(a + b, x) == count_of(a, x) + count_of(b, x),
    decreases b.len(),
{
    if b.len() == 0 {
        assert(a + b =~= a);
    } else {
        lemma_count_concat(a, b.drop_last(), x);
        assert((a + b).drop_last() =~= a + b.drop_last());
        assert((a + b).last() == b.last());
    }
}

proof fn lemma_count_single(y: InstructionModel, x: InstructionModel)
    ensures
        count_of(seq![y], x) == if y == x {
            1nat
        } else {
            0nat
        },
{
    assert(seq![y].drop_last() =~= Seq::<InstructionModel>::empty());
    assert(count_of(Seq::<InstructionModel>::empty(), x) == 0);
    assert(seq![y].last() == y);
}

proof fn lemma_delta_concat(
    a: Seq<InstructionModel>,
    b: Seq<InstructionModel>,
    on: InstructionModel,
    off: InstructionModel,
)
    ensures
        style_delta(a + b, on, off) == style_delta(a, on, off) + style_delta(b, on, off),
{
    lemma_count_concat(a, b, on);
    lemma_count_concat(a, b, off);
}

/// The change of a single plain (text or image) instruction is zero.
proof fn lemma_delta_plain(t: InstructionModel, on: InstructionModel, off: InstructionModel)
    requires
        is_style_pair(on, off),
        t is Text || t is Image,
    ensures
        style_delta(seq![t], on, off) == 0,
{
    lemma_count_single(t, on);
    lemma_count_single(t, off);
}

proof fn lemma_delta_enclosed(
    open: InstructionModel,
    inner: Seq<InstructionModel>,
    close: InstructionModel,
    on: InstructionModel,
    off: InstructionModel,
)
    requires
        is_style_pair(on, off),
        is_style_pair(open, close) || ((open is Text) && (close is Text)),
        style_delta(inner, on, off) == 0,
    ensures
        style_delta(enclosed(open, inner, close), on, off) == 0,
{
    lemma_delta_concat(seq![open], inner, on, off);
    lemma_delta_concat(seq![open] + inner, seq![close], on, off);
    lemma_count_single(open, on);
    lemma_count_single(open, off);
    lemma_count_single(close, on);
    lemma_count_single(close, off);
}

proof fn lemma_delta_highlighted(t: Seq<char>, on: InstructionModel, off: InstructionModel)
    requires
        is_style_pair(on, off),
    ensures
        style_delta(highlighted(t), on, off) == 0,
{
    lemma_delta_plain(InstructionModel::Text(t), on, off);
    assert(highlighted(t) =~= enclosed(
        InstructionModel::Reverse(true),
        seq![InstructionModel::Text(t)],
        InstructionModel::Reverse(false),
    ));
    lemma_delta_enclosed(
        InstructionModel::Reverse(true),
        seq![InstructionModel::Text(t)],
        InstructionModel::Reverse(false),
        on,
        off,
    );
}

proof fn lemma_node_balanced(
    n: MarkdownNode,
    lookups: Seq<MentionLookup>,
    on: InstructionModel,
    off: InstructionModel,
)
    requires
        is_style_pair(on, off),
    ensures
        style_delta(render_node(n, lookups), on, off) == 0,
    decreases n,
{
    let u = InstructionModel::Underline(UnderlineMode::Single);
    let uo = InstructionModel::Underline(UnderlineMode::Off);
    match n {
        MarkdownNode::Text(t) => lemma_delta_plain(InstructionModel::Text(t@), on, off),
        MarkdownNode::CustomEmoji(_, file) => lemma_delta_plain(
            InstructionModel::Image(custom_emoji_url(file@)),
            on,
            off,
        ),
        MarkdownNode::User(_) => lemma_delta_highlighted(
            mention_label("@"@, "@Unknown User"@, lookups),
            on,
            off,
        ),
        MarkdownNode::Role(_) => lemma_delta_highlighted(
            mention_label("@"@, "@Unknown Role"@, lookups),
            on,
            off,
        ),
        MarkdownNode::Channel(_) => lemma_delta_highlighted(
            mention_label("#"@, "#Unknown Channel"@, lookups),
            on,
            off,
        ),
        MarkdownNode::Hyperlink(link, _) => {
            lemma_delta_plain(InstructionModel::Image(link@), on, off);
            lemma_delta_plain(InstructionModel::Text(link@), on, off);
            lemma_delta_enclosed(u, seq![InstructionModel::Text(link@)], uo, on, off);
        },
        MarkdownNode::MultilineCode(code) => lemma_delta_highlighted(code_block(code@), on, off),
        MarkdownNode::InlineCode(code) => lemma_delta_highlighted(code@, on, off),
        MarkdownNode::Blockquote(v) => {
            lemma_nodes_balanced(v@, lookups, on, off);
            lemma_delta_enclosed(
                InstructionModel::Text("\""@),
                render_nodes(v@, lookups),
                InstructionModel::Text("\"\n"@),
                on,
                off,
            );
        },
        MarkdownNode::Spoiler(_) => lemma_delta_highlighted(" SPOILER "@, on, off),
        MarkdownNode::Underline(v) => {
            lemma_nodes_balanced(v@, lookups, on, off);
            lemma_delta_enclosed(u, render_nodes(v@, lookups), uo, on, off);
        },
        MarkdownNode::Strikethrough(v) => {
            lemma_nodes_balanced(v@, lookups, on, off);
            lemma_delta_enclosed(
                InstructionModel::Strike(true),
                render_nodes(v@, lookups),
                InstructionModel::Strike(false),
                on,
                off,
            );
        },
        MarkdownNode::Bold(v) => {
            lemma_nodes_balanced(v@, lookups, on, off);
            lemma_delta_enclosed(
                InstructionModel::Bold(true),
                render_nodes(v@, lookups),
                InstructionModel::Bold(false),
                on,
                off,
            );
        },
        MarkdownNode::Italics(v) => {
            lemma_nodes_balanced(v@, lookups, on, off);
            lemma_delta_enclosed(
                InstructionModel::Italic(true),
                render_nodes(v@, lookups),
                InstructionModel::Italic(false),
                on,
                off,
            );
        },
        MarkdownNode::Newline => lemma_delta_plain(InstructionModel::Text("\n"@), on, off),
    }
}

proof fn lemma_nodes_balanced(
    ns: Seq<MarkdownNode>,
    lookups: Seq<MentionLookup>,
    on: InstructionModel,
    off: InstructionModel,
)
    requires
        is_style_pair(on, off),
    ensures
        style_delta(render_nodes(ns, lookups), on, off) == 0,
    decreases ns,
{
    if ns.len() > 0 {
        let k = nodes_mentions(ns.drop_last()).len() as int;
        lemma_nodes_balanced(ns.drop_last(), lookups.take(k), on, off);
        lemma_node_balanced(ns.last(), lookups.skip(k), on, off);
        lemma_delta_concat(
            render_nodes(ns.drop_last(), lookups.take(k)),
            render_node(ns.last(), lookups.skip(k)),
            on,
            off,
        );
    }
}

/// Rendering closes every style it opens: reversed printing, underline,
/// strike-through, bold and italics are turned off as often as they are
/// turned on, whatever the markdown and whatever the mentions resolve to.
pub proof fn rendering_closes_styles(nodes: Seq<MarkdownNode>, lookups: Seq<MentionLookup>)
    ensures
        styles_balanced(render_nodes(nodes, lookups)),
{
    assert forall|on: InstructionModel, off: InstructionModel|
        is_style_pair(on, off) implies #[trigger] style_delta(render_nodes(nodes, lookups), on, off)
        == 0 by {
        lemma_nodes_balanced(nodes, lookups, on, off);
    }
}

proof fn lemma_stickers_balanced(stickers: Seq<Option<String>>, on: InstructionModel, off: InstructionModel)
    requires
        is_style_pair(on, off),
    ensures
        style_delta(stickers_instructions(stickers), on, off) == 0,
    decreases stickers.len(),
{
    if stickers.len() > 0 {
        lemma_stickers_balanced(stickers.drop_last(), on, off);
        let extra = match stickers.last() {
            Some(url) => seq![InstructionModel::Image(url@)],
            None => Seq::<InstructionModel>::empty(),
        };
        match stickers.last() {
            Some(url) => lemma_delta_plain(InstructionModel::Image(url@), on, off),
            None => {},
        }
        lemma_delta_concat(stickers_instructions(stickers.drop_last()), extra, on, off);
    }
}

proof fn lemma_attachments_balanced(atts: Seq<Attachment>, on: InstructionModel, off: InstructionModel)
    requires
        is_style_pair(on, off),
    ensures
        style_delta(attachments_instructions(atts), on, off) == 0,
    decreases atts.len(),
{
    if atts.len() > 0 {
        lemma_attachments_balanced(atts.drop_last(), on, off);
        let a = atts.last();
        match a.content_type {
            Some(t) => {
                let text = seq![InstructionModel::Text("\n\nFile: "@ + a.filename@)];
                lemma_delta_plain(InstructionModel::Text("\n\nFile: "@ + a.filename@), on, off);
                lemma_delta_enclosed(
                    InstructionModel::Underline(UnderlineMode::Single),
                    text,
                    InstructionModel::Underline(UnderlineMode::Off),
                    on,
                    off,
                );
                lemma_delta_plain(InstructionModel::Image(a.proxy_url@), on, off);
                let img = if contains_seq(t@, "image/"@) {
                    seq![InstructionModel::Image(a.proxy_url@)]
                } else {
                    Seq::<InstructionModel>::empty()
                };
                lemma_delta_concat(
                    enclosed(
                        InstructionModel::Underline(UnderlineMode::Single),
                        text,
                        InstructionModel::Underline(UnderlineMode::Off),
                    ),
                    img,
                    on,
                    off,
                );
            },
            None => {},
        }
        lemma_delta_concat(
            attachments_instructions(atts.drop_last()),
            attachment_instructions(a),
            on,
            off,
        );
    }
}

/// A printed message closes every style it opens (see
/// [`rendering_closes_styles`]), and it always ends with a cut.
pub proof fn message_closes_styles_and_cuts(
    author: Seq<char>,
    channel: ChannelOrigin,
    nodes: Seq<MarkdownNode>,
    lookups: Seq<MentionLookup>,
    stickers: Seq<Option<String>>,
    attachments: Seq<Attachment>,
)
    ensures
        styles_balanced(
            message_instructions(author, channel, nodes, lookups, stickers, attachments),
        ),
        message_instructions(author, channel, nodes, lookups, stickers, attachments).last()
            == InstructionModel::PrintCut,
{
    let header = message_header(author, channel);
    let body = render_nodes(nodes, lookups);
    let st = stickers_instructions(stickers);
    let at = attachments_instructions(attachments);
    let all = message_instructions(author, channel, nodes, lookups, stickers, attachments);
    assert forall|on: InstructionModel, off: InstructionModel|
        is_style_pair(on, off) implies #[trigger] style_delta(all, on, off) == 0 by {
        lemma_delta_highlighted("@"@ + author, on, off);
        lemma_delta_plain(InstructionModel::Text(" in "@), on, off);
        lemma_delta_highlighted(channel_label(channel), on, off);
        lemma_delta_plain(InstructionModel::Text("\n\n"@), on, off);
        let h1 = highlighted("@"@ + author);
        let h2 = h1 + seq![InstructionModel::Text(" in "@)];
        let h3 = h2 + highlighted(channel_label(channel));
        lemma_delta_concat(h1, seq![InstructionModel::Text(" in "@)], on, off);
        lemma_delta_concat(h2, highlighted(channel_label(channel)), on, off);
        lemma_delta_concat(h3, seq![InstructionModel::Text("\n\n"@)], on, off);
        lemma_nodes_balanced(nodes, lookups, on, off);
        lemma_stickers_balanced(stickers, on, off);
        lemma_attachments_balanced(attachments, on, off);
        lemma_delta_concat(header, body, on, off);
        lemma_delta_concat(header + body, st, on, off);
        lemma_delta_concat(header + body + st, at, on, off);
        lemma_delta_concat(header + body + st + at, seq![InstructionModel::PrintCut], on, off);
        lemma_count_single(InstructionModel::PrintCut, on);
        lemma_count_single(InstructionModel::PrintCut, off);
    }
}

/// The text styles of the printer.
pub struct StyleState {
    pub reverse: bool,
    pub underline: UnderlineMode,
    pub strike: bool,
    pub bold: bool,
    pub italic: bool,
}

/// Plain printing: every style off.
pub open spec fn plain_style() -> StyleState {
    StyleState {
        reverse: false,
        underline: UnderlineMode::Off,
        strike: false,
        bold: false,
        italic: false,
    }
}

/// The styles after one instruction.
pub open spec fn apply_style(st: StyleState, i: InstructionModel) -> StyleState {
    match i {
        InstructionModel::Reverse(b) => StyleState { reverse: b, ..st },
        InstructionModel::Underline(m) => StyleState { underline: m, ..st },
        InstructionModel::Strike(b) => StyleState { strike: b, ..st },
        InstructionModel::Bold(b) => StyleState { bold: b, ..st },
        InstructionModel::Italic(b) => StyleState { italic: b, ..st },
        _ => st,
    }
}

/// The styles after a list of instructions, starting from `st`.
pub open spec fn replay_styles(st: StyleState, out: Seq<InstructionModel>) -> StyleState
    decreases out.len(),
{
    if out.len() == 0 {
        st
    } else {
        apply_style(replay_styles(st, out.drop_last()), out.last())
    }
}

/// True when every style that is on in `after` was on, the same way, in
/// `before`.
pub open spec fn adds_no_style(before: StyleState, after: StyleState) -> bool {
    &&& after.reverse ==> before.reverse
    &&& after.underline != UnderlineMode::Off ==> after.underline == before.underline
    &&& after.strike ==> before.strike
    &&& after.bold ==> before.bold
    &&& after.italic ==> before.italic
}

proof fn lemma_replay_concat(st: StyleState, a: Seq<InstructionModel>, b: Seq<InstructionModel>)
    ensures
        replay_styles(st, a + b) == replay_styles(replay_styles(st, a), b),
    decreases b.len(),
{
    if b.len() == 0 {
        assert(a + b =~= a);
    } else {
        lemma_replay_concat(st, a, b.drop_last());
        assert((a + b).drop_last() =~= a + b.drop_last());
        assert((a + b).last() == b.last());
    }
}

proof fn lemma_replay_single(st: StyleState, x: InstructionModel)
    ensures
        replay_styles(st, seq![x]) == apply_style(st, x),
{
    assert(seq![x].drop_last() =~= Seq::<InstructionModel>::empty());
    assert(seq![x].last() == x);
    assert(replay_styles(st, Seq::<InstructionModel>::empty()) == st);
}

/// Replaying `a` then `b` adds no style when neither does.
proof fn lemma_no_style_concat(st: StyleState, a: Seq<InstructionModel>, b: Seq<InstructionModel>)
    requires
        forall|t: StyleState| #[trigger] adds_no_style(t, replay_styles(t, a)),
        forall|t: StyleState| #[trigger] adds_no_style(t, replay_styles(t, b)),
    ensures
        adds_no_style(st, replay_styles(st, a + b)),
{
    lemma_replay_concat(st, a, b);
    let m = replay_styles(st, a);
    assert(adds_no_style(st, m));
    assert(adds_no_style(m, replay_styles(m, b)));
}

proof fn lemma_no_style_plain(t: InstructionModel)
    requires
        t is Text || t is Image || t is PrintCut,
    ensures
        forall|st: StyleState| #[trigger] adds_no_style(st, replay_styles(st, seq![t])),
{
    assert forall|st: StyleState| #[trigger] adds_no_style(st, replay_styles(st, seq![t])) by {
        lemma_replay_single(st, t);
    }
}

proof fn lemma_no_style_enclosed(
    open: InstructionModel,
    inner: Seq<InstructionModel>,
    close: InstructionModel,
)
    requires
        is_style_pair(open, close) || ((open is Text) && (close is Text)),
        forall|st: StyleState| #[trigger] adds_no_style(st, replay_styles(st, inner)),
    ensures
        forall|st: StyleState| #[trigger] adds_no_style(st, replay_styles(st, enclosed(open, inner, close))),
{
    assert forall|st: StyleState| #[trigger] adds_no_style(st, replay_styles(st, enclosed(open, inner, close))) by {
        lemma_replay_concat(st, seq![open], inner);
        lemma_replay_concat(st, seq![open] + inner, seq![close]);
        lemma_replay_single(st, open);
        let s1 = apply_style(st, open);
        let s2 = replay_styles(s1, inner);
        assert(adds_no_style(s1, s2));
        lemma_replay_single(s2, close);
    }
}

proof fn lemma_no_style_highlighted(t: Seq<char>)
    ensures
        forall|st: StyleState| #[trigger] adds_no_style(st, replay_styles(st, highlighted(t))),
{
    lemma_no_style_plain(InstructionModel::Text(t));
    assert(highlighted(t) =~= enclosed(
        InstructionModel::Reverse(true),
        seq![InstructionModel::Text(t)],
        InstructionModel::Reverse(false),
    ));
    lemma_no_style_enclosed(
        InstructionModel::Reverse(true),
        seq![InstructionModel::Text(t)],
        InstructionModel::Reverse(false),
    );
}

proof fn lemma_no_style_empty()
    ensures
        forall|st: StyleState| #[trigger] adds_no_style(st, replay_styles(st, Seq::<InstructionModel>::empty())),
{
}

proof fn lemma_node_no_style(n: MarkdownNode, lookups: Seq<MentionLookup>)
    ensures
        forall|st: StyleState| #[trigger] adds_no_style(st, replay_styles(st, render_node(n, lookups))),
    decreases n,
{
    let u = InstructionModel::Underline(UnderlineMode::Single);
    let uo = InstructionModel::Underline(UnderlineMode::Off);
    match n {
        MarkdownNode::Text(t) => lemma_no_style_plain(InstructionModel::Text(t@)),
        MarkdownNode::CustomEmoji(_, file) => lemma_no_style_plain(
            InstructionModel::Image(custom_emoji_url(file@)),
        ),
        MarkdownNode::User(_) => lemma_no_style_highlighted(
            mention_label("@"@, "@Unknown User"@, lookups),
        ),
        MarkdownNode::Role(_) => lemma_no_style_highlighted(
            mention_label("@"@, "@Unknown Role"@, lookups),
        ),
        MarkdownNode::Channel(_) => lemma_no_style_highlighted(
            mention_label("#"@, "#Unknown Channel"@, lookups),
        ),
        MarkdownNode::Hyperlink(link, _) => {
            lemma_no_style_plain(InstructionModel::Image(link@));
            lemma_no_style_plain(InstructionModel::Text(link@));
            lemma_no_style_enclosed(u, seq![InstructionModel::Text(link@)], uo);
        },
        MarkdownNode::MultilineCode(code) => lemma_no_style_highlighted(code_block(code@)),
        MarkdownNode::InlineCode(code) => lemma_no_style_highlighted(code@),
        MarkdownNode::Blockquote(v) => {
            lemma_nodes_no_style(v@, lookups);
            lemma_no_style_enclosed(
                InstructionModel::Text("\""@),
                render_nodes(v@, lookups),
                InstructionModel::Text("\"\n"@),
            );
        },
        MarkdownNode::Spoiler(_) => lemma_no_style_highlighted(" SPOILER "@),
        MarkdownNode::Underline(v) => {
            lemma_nodes_no_style(v@, lookups);
            lemma_no_style_enclosed(u, render_nodes(v@, lookups), uo);
        },
        MarkdownNode::Strikethrough(v) => {
            lemma_nodes_no_style(v@, lookups);
            lemma_no_style_enclosed(
                InstructionModel::Strike(true),
                render_nodes(v@, lookups),
                InstructionModel::Strike(false),
            );
        },
        MarkdownNode::Bold(v) => {
            lemma_nodes_no_style(v@, lookups);
            lemma_no_style_enclosed(
                InstructionModel::Bold(true),
                render_nodes(v@, lookups),
                InstructionModel::Bold(false),
            );
        },
        MarkdownNode::Italics(v) => {
            lemma_nodes_no_style(v@, lookups);
            lemma_no_style_enclosed(
                InstructionModel::Italic(true),
                render_nodes(v@, lookups),
                InstructionModel::Italic(false),
            );
        },
        MarkdownNode::Newline => lemma_no_style_plain(InstructionModel::Text("\n"@)),
    }
}

proof fn lemma_nodes_no_style(ns: Seq<MarkdownNode>, lookups: Seq<MentionLookup>)
    ensures
        forall|st: StyleState| #[trigger] adds_no_style(st, replay_styles(st, render_nodes(ns, lookups))),
    decreases ns,
{
    if ns.len() == 0 {
        lemma_no_style_empty();
        assert(render_nodes(ns, lookups) =~= Seq::<InstructionModel>::empty());
    } else {
        let k = nodes_mentions(ns.drop_last()).len() as int;
        lemma_nodes_no_style(ns.drop_last(), lookups.take(k));
        lemma_node_no_style(ns.last(), lookups.skip(k));
        assert forall|st: StyleState| #[trigger] adds_no_style(st, replay_styles(st, render_nodes(ns, lookups))) by {
            lemma_no_style_concat(
                st,
                render_nodes(ns.drop_last(), lookups.take(k)),
                render_node(ns.last(), lookups.skip(k)),
            );
        }
    }
}

proof fn lemma_plain_stays_plain(after: StyleState)
    requires
        adds_no_style(plain_style(), after),
    ensures
        after == plain_style(),
{
}

/// Rendering never leaves a style on that was not on before it: whatever the
/// printer's styles, printing rendered markdown leaves on only styles that
/// were already on.  In particular, markdown rendered from plain printing
/// ends in plain printing.
pub proof fn rendering_leaves_no_style_on(
    nodes: Seq<MarkdownNode>,
    lookups: Seq<MentionLookup>,
    start: StyleState,
)
    ensures
        adds_no_style(start, replay_styles(start, render_nodes(nodes, lookups))),
        replay_styles(plain_style(), render_nodes(nodes, lookups)) == plain_style(),
{
    lemma_nodes_no_style(nodes, lookups);
    assert(adds_no_style(start, replay_styles(start, render_nodes(nodes, lookups))));
    assert(adds_no_style(plain_style(), replay_styles(plain_style(), render_nodes(nodes, lookups))));
    lemma_plain_stays_plain(replay_styles(plain_style(), render_nodes(nodes, lookups)));
}

proof fn lemma_stickers_no_style(stickers: Seq<Option<String>>)
    ensures
        forall|st: StyleState| #[trigger] adds_no_style(st, replay_styles(st, stickers_instructions(stickers))),
    decreases stickers.len(),
{
    if stickers.len() == 0 {
        lemma_no_style_empty();
        assert(stickers_instructions(stickers) =~= Seq::<InstructionModel>::empty());
    } else {
        lemma_stickers_no_style(stickers.drop_last());
        let extra = match stickers.last() {
            Some(url) => seq![InstructionModel::Image(url@)],
            None => Seq::<InstructionModel>::empty(),
        };
        match stickers.last() {
            Some(url) => lemma_no_style_plain(InstructionModel::Image(url@)),
            None => lemma_no_style_empty(),
        }
        assert forall|st: StyleState| #[trigger] adds_no_style(st, replay_styles(st, stickers_instructions(stickers))) by {
            lemma_no_style_concat(st, stickers_instructions(stickers.drop_last()), extra);
        }
    }
}

proof fn lemma_attachment_no_style(a: Attachment)
    ensures
        forall|st: StyleState| #[trigger] adds_no_style(st, replay_styles(st, attachment_instructions(a))),
{
    match a.content_type {
        Some(t) => {
            let text = seq![InstructionModel::Text("\n\nFile: "@ + a.filename@)];
            let head = enclosed(
                InstructionModel::Underline(UnderlineMode::Single),
                text,
                InstructionModel::Underline(UnderlineMode::Off),
            );
            lemma_no_style_plain(InstructionModel::Text("\n\nFile: "@ + a.filename@));
            lemma_no_style_enclosed(
                InstructionModel::Underline(UnderlineMode::Single),
                text,
                InstructionModel::Underline(UnderlineMode::Off),
            );
            let img = if contains_seq(t@, "image/"@) {
                seq![InstructionModel::Image(a.proxy_url@)]
            } else {
                Seq::<InstructionModel>::empty()
            };
            lemma_no_style_plain(InstructionModel::Image(a.proxy_url@));
            lemma_no_style_empty();
            assert forall|st: StyleState| #[trigger] adds_no_style(st, replay_styles(st, attachment_instructions(a))) by {
                lemma_no_style_concat(st, head, img);
            }
        },
        None => {
            lemma_no_style_empty();
            assert(attachment_instructions(a) =~= Seq::<InstructionModel>::empty());
        },
    }
}

proof fn lemma_attachments_no_style(atts: Seq<Attachment>)
    ensures
        forall|st: StyleState| #[trigger] adds_no_style(st, replay_styles(st, attachments_instructions(atts))),
    decreases atts.len(),
{
    if atts.len() == 0 {
        lemma_no_style_empty();
        assert(attachments_instructions(atts) =~= Seq::<InstructionModel>::empty());
    } else {
        lemma_attachments_no_style(atts.drop_last());
        lemma_attachment_no_style(atts.last());
        assert forall|st: StyleState| #[trigger] adds_no_style(st, replay_styles(st, attachments_instructions(atts))) by {
            lemma_no_style_concat(
                st,
                attachments_instructions(atts.drop_last()),
                attachment_instructions(atts.last()),
            );
        }
    }
}

/// A printed message leaves no style on that was not on before it (see
/// [`rendering_leaves_no_style_on`]); printed from plain printing, it ends in
/// plain printing.
pub proof fn message_leaves_no_style_on(
    author: Seq<char>,
    channel: ChannelOrigin,
    nodes: Seq<MarkdownNode>,
    lookups: Seq<MentionLookup>,
    stickers: Seq<Option<String>>,
    attachments: Seq<Attachment>,
    start: StyleState,
)
    ensures
        adds_no_style(
            start,
            replay_styles(
                start,
                message_instructions(author, channel, nodes, lookups, stickers, attachments),
            ),
        ),
        replay_styles(
            plain_style(),
            message_instructions(author, channel, nodes, lookups, stickers, attachments),
        ) == plain_style(),
{
    let t1 = seq![InstructionModel::Text(" in "@)];
    let t2 = seq![InstructionModel::Text("\n\n"@)];
    let h1 = highlighted("@"@ + author);
    let h2 = highlighted(channel_label(channel));
    let header = message_header(author, channel);
    let body = render_nodes(nodes, lookups);
    let st = stickers_instructions(stickers);
    let at = attachments_instructions(attachments);
    let cut = seq![InstructionModel::PrintCut];
    let all = message_instructions(author, channel, nodes, lookups, stickers, attachments);
    lemma_no_style_highlighted("@"@ + author);
    lemma_no_style_highlighted(channel_label(channel));
    lemma_no_style_plain(InstructionModel::Text(" in "@));
    lemma_no_style_plain(InstructionModel::Text("\n\n"@));
    lemma_no_style_plain(InstructionModel::PrintCut);
    lemma_nodes_no_style(nodes, lookups);
    lemma_stickers_no_style(stickers);
    lemma_attachments_no_style(attachments);
    assert forall|s0: StyleState| #[trigger] adds_no_style(s0, replay_styles(s0, h1 + t1)) by {
        lemma_no_style_concat(s0, h1, t1);
    }
    assert forall|s0: StyleState| #[trigger] adds_no_style(s0, replay_styles(s0, h1 + t1 + h2)) by {
        lemma_no_style_concat(s0, h1 + t1, h2);
    }
    assert forall|s0: StyleState| #[trigger] adds_no_style(s0, replay_styles(s0, header)) by {
        lemma_no_style_concat(s0, h1 + t1 + h2, t2);
    }
    assert forall|s0: StyleState| #[trigger] adds_no_style(s0, replay_styles(s0, header + body)) by {
        lemma_no_style_concat(s0, header, body);
    }
    assert forall|s0: StyleState| #[trigger] adds_no_style(s0, replay_styles(s0, header + body + st)) by {
        lemma_no_style_concat(s0, header + body, st);
    }
    assert forall|s0: StyleState| #[trigger] adds_no_style(s0, replay_styles(s0, header + body + st + at)) by {
        lemma_no_style_concat(s0, header + body + st, at);
    }
    assert forall|s0: StyleState| #[trigger] adds_no_style(s0, replay_styles(s0, all)) by {
        lemma_no_style_concat(s0, header + body + st + at, cut);
    }
    assert(adds_no_style(start, replay_styles(start, all)));
    assert(adds_no_style(plain_style(), replay_styles(plain_style(), all)));
    lemma_plain_stays_plain(replay_styles(plain_style(), all));
}

proof fn lemma_render_single(n: MarkdownNode, lookups: Seq<MentionLookup>)
    ensures
        render_nodes(seq![n], lookups) == render_node(n, lookups),
        nodes_mentions(seq![n]) == node_mentions(n),
{
    assert(seq![n].drop_last() =~= Seq::<MarkdownNode>::empty());
    assert(seq![n].last() == n);
    assert(lookups.skip(0) =~= lookups);
    assert(render_nodes(Seq::<MarkdownNode>::empty(), lookups.take(0)) =~= Seq::<InstructionModel>::empty());
    assert(render_nodes(seq![n], lookups) =~= render_node(n, lookups));
    assert(nodes_mentions(seq![n]) =~= node_mentions(n));
}

/// A mention whose lookup found a name prints, highlighted, `@` and that name
/// for a user or a role and `#` and that name for a channel.  Only a mention
/// whose lookup failed prints the unknown text.
pub proof fn mentions_print_their_names(id: String, name: String)
    ensures
        render_nodes(seq![MarkdownNode::User(id)], seq![MentionLookup::Found(name)]) == seq![
            InstructionModel::Reverse(true),
            InstructionModel::Text("@"@ + name@),
            InstructionModel::Reverse(false),
        ],
        render_nodes(seq![MarkdownNode::Role(id)], seq![MentionLookup::Found(name)]) == seq![
            InstructionModel::Reverse(true),
            InstructionModel::Text("@"@ + name@),
            InstructionModel::Reverse(false),
        ],
        render_nodes(seq![MarkdownNode::Channel(id)], seq![MentionLookup::Found(name)]) == seq![
            InstructionModel::Reverse(true),
            InstructionModel::Text("#"@ + name@),
            InstructionModel::Reverse(false),
        ],
        render_nodes(seq![MarkdownNode::User(id)], seq![MentionLookup::NotFound]) == seq![
            InstructionModel::Reverse(true),
            InstructionModel::Text("@Unknown User"@),
            InstructionModel::Reverse(false),
        ],
        render_nodes(seq![MarkdownNode::Role(id)], seq![MentionLookup::NotFound]) == seq![
            InstructionModel::Reverse(true),
            InstructionModel::Text("@Unknown Role"@),
            InstructionModel::Reverse(false),
        ],
        render_nodes(seq![MarkdownNode::Channel(id)], seq![MentionLookup::NotFound]) == seq![
            InstructionModel::Reverse(true),
            InstructionModel::Text("#Unknown Channel"@),
            InstructionModel::Reverse(false),
        ],
{
    let found = seq![MentionLookup::Found(name)];
    let missing = seq![MentionLookup::NotFound];
    lemma_render_single(MarkdownNode::User(id), found);
    lemma_render_single(MarkdownNode::Role(id), found);
    lemma_render_single(MarkdownNode::Channel(id), found);
    lemma_render_single(MarkdownNode::User(id), missing);
    lemma_render_single(MarkdownNode::Role(id), missing);
    lemma_render_single(MarkdownNode::Channel(id), missing);
}

/// Each mention is requested under the kind of the mention and with its id:
/// a user mention as a user, a role mention as a role, a channel mention as
/// a channel.
pub proof fn mentions_requested_by_kind(id: String)
    ensures
        nodes_mentions(seq![MarkdownNode::User(id)]) == seq![(MentionKind::User, id@)],
        nodes_mentions(seq![MarkdownNode::Role(id)]) == seq![(MentionKind::Role, id@)],
        nodes_mentions(seq![MarkdownNode::Channel(id)]) == seq![(MentionKind::Channel, id@)],
{
    lemma_render_single(MarkdownNode::User(id), Seq::empty());
    lemma_render_single(MarkdownNode::Role(id), Seq::empty());
    lemma_render_single(MarkdownNode::Channel(id), Seq::empty());
}

/// The mentions requested for two lists of nodes, one after the other, are
/// those of the first list followed by those of the second.
pub proof fn mentions_of_concatenation(a: Seq<MarkdownNode>, b: Seq<MarkdownNode>)
    ensures
        nodes_mentions(a + b) == nodes_mentions(a) + nodes_mentions(b),
    decreases b.len(),
{
    if b.len() == 0 {
        assert(a + b =~= a);
        assert(nodes_mentions(b) =~= Seq::<(MentionKind, Seq<char>)>::empty());
        assert(nodes_mentions(a) + nodes_mentions(b) =~= nodes_mentions(a));
    } else {
        mentions_of_concatenation(a, b.drop_last());
        assert((a + b).drop_last() =~= a + b.drop_last());
        assert((a + b).last() == b.last());
        assert(nodes_mentions(a + b) =~= nodes_mentions(a) + nodes_mentions(b));
    }
}

} // verus!
