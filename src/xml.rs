use vstd::prelude::*;
use vstd::string::StrSliceExecFns;
use quick_xml::events::Event;
use quick_xml::Reader;
use crate::convert::{ConvertError, convert, converts_to};
use crate::schedule::ScheduledTrack;
use crate::tokens::{Token, TokenView, XmlAttribute, token_views};

verus! {

/// quick_xml's pull reader, carried as an opaque value.
#[verifier::external_type_specification]
#[verifier::external_body]
#[verifier::reject_recursive_types(R)]
pub struct ExReader<R>(Reader<R>);

/// One event of quick_xml's reader, carried as an opaque value.
#[verifier::external_type_specification]
#[verifier::external_body]
pub struct ExEvent<'i>(Event<'i>);

/// The kinds of markup events the tokenizer tells apart.
#[derive(Clone, Copy, Debug, PartialEq, Eq, Structural)]
pub enum MarkupKind {
    Start,
    Empty,
    End,
    /// Character data, as text or as a CDATA section.
    Text,
    /// An entity or character reference.
    Reference,
    Eof,
    /// A comment, declaration, processing instruction or doctype.
    Other,
}

/// Whether reading the event at position `k` of `src`, with a reader that
/// has read the `k` events before it, stops with an error.
pub uninterp spec fn markup_fails(src: Seq<char>, k: nat) -> bool;

/// The kind of the event at position `k` of `src`.
pub uninterp spec fn markup_kind_at(src: Seq<char>, k: nat) -> MarkupKind;

/// The tag name of the element event at position `k` of `src`.
pub uninterp spec fn markup_name_at(src: Seq<char>, k: nat) -> Seq<char>;

/// The attribute at position `j` of the element event at position `k` of
/// `src`: its name and its value normalized as XML 1.0 asks, `Some(None)`
/// when it is malformed, `None` past the last one.
pub uninterp spec fn markup_attribute_at(src: Seq<char>, k: nat, j: nat) -> Option<
    Option<(Seq<char>, Seq<char>)>,
>;

/// The character data of the text event at position `k` of `src`.
pub uninterp spec fn markup_text_at(src: Seq<char>, k: nat) -> Seq<char>;

/// The character a reference event at position `k` of `src` stands for:
/// `Some(Some(c))` for a character reference, `Some(None)` for another
/// reference, `None` for a malformed one.
pub uninterp spec fn markup_char_ref_at(src: Seq<char>, k: nat) -> Option<Option<Seq<char>>>;

/// The text a predefined entity reference event at position `k` of `src`
/// stands for.
pub uninterp spec fn markup_entity_at(src: Seq<char>, k: nat) -> Option<Seq<char>>;

/// A reader over `src` that counts the events it has read.
pub struct MarkupReader<'a> {
    reader: Reader<&'a [u8]>,
    src: Ghost<Seq<char>>,
    read: Ghost<nat>,
}

/// The event at position `index` of `src`.
pub struct MarkupEvent<'a> {
    event: Event<'a>,
    src: Ghost<Seq<char>>,
    index: Ghost<nat>,
}

/// Relies on quick_xml::Reader::from_str: a reader at the start of `src`.
#[verifier::external_body]
fn open_reader<'a>(src: &'a str) -> (r: MarkupReader<'a>)
    ensures
        r.src@ == src@,
        r.read@ == 0,
{
    MarkupReader { reader: Reader::from_str(src), src: Ghost(src@), read: Ghost(0) }
}

/// Relies on quick_xml::Reader::read_event: the next event of the input;
/// `None` when reading it stops with an error.
#[verifier::external_body]
fn read_event<'a>(r: &mut MarkupReader<'a>) -> (e: Option<MarkupEvent<'a>>)
    ensures
        final(r).src == old(r).src,
        final(r).read@ == old(r).read@ + 1,
        e is None <==> markup_fails(old(r).src@, old(r).read@),
        e matches Some(ev) ==> ev.src == old(r).src && ev.index == old(r).read,
{
    let index = r.read;
    r.read = Ghost((r.read@ + 1) as nat);
    match r.reader.read_event() {
        Ok(event) => Some(MarkupEvent { event, src: r.src, index }),
        Err(_) => None,
    }
}

/// Relies on quick_xml's `Event` enum: tells its variants apart.
#[verifier::external_body]
fn markup_kind(e: &MarkupEvent) -> (r: MarkupKind)
    ensures
        r == markup_kind_at(e.src@, e.index@),
{
    match &e.event {
        Event::Start(_) => MarkupKind::Start,
        Event::Empty(_) => MarkupKind::Empty,
        Event::End(_) => MarkupKind::End,
        Event::Text(_) => MarkupKind::Text,
        Event::CData(_) => MarkupKind::Text,
        Event::GeneralRef(_) => MarkupKind::Reference,
        Event::Eof => MarkupKind::Eof,
        Event::Comment(_) => MarkupKind::Other,
        Event::Decl(_) => MarkupKind::Other,
        Event::PI(_) => MarkupKind::Other,
        Event::DocType(_) => MarkupKind::Other,
    }
}

/// Relies on quick_xml's BytesStart::name: the tag name of a start or empty
/// element event, as written.
#[verifier::external_body]
fn tag_name(e: &MarkupEvent) -> (r: String)
    ensures
        r@ == markup_name_at(e.src@, e.index@),
{
    match &e.event {
        Event::Start(t) | Event::Empty(t) => t.name().0.to_string(),
        _ => String::new(),
    }
}

/// Relies on quick_xml's BytesStart::attributes and Attribute::normalized_value:
/// the attribute at position `j` of an element event, its value normalized
/// as XML 1.0 asks (references resolved, line ends and tabs as spaces).
#[verifier::external_body]
fn attribute_at(e: &MarkupEvent, j: usize) -> (r: Option<Option<XmlAttribute>>)
    ensures
        r matches Some(Some(a)) ==> markup_attribute_at(e.src@, e.index@, j as nat) == Some(
            Some(a@),
        ),
        r matches Some(None) ==> markup_attribute_at(e.src@, e.index@, j as nat) == Some(
            None::<(Seq<char>, Seq<char>)>,
        ),
        r is None <==> markup_attribute_at(e.src@, e.index@, j as nat) is None,
{
    let a = match &e.event {
        Event::Start(t) | Event::Empty(t) => t.attributes().nth(j),
        _ => None,
    };
    match a {
        Some(Ok(a)) => match a.normalized_value(quick_xml::XmlVersion::Implicit1_0) {
            Ok(v) => Some(Some(XmlAttribute { name: a.key.0.to_string(), value: v.into_owned() })),
            Err(_) => Some(None),
        },
        Some(Err(_)) => Some(None),
        None => None,
    }
}

/// Relies on quick_xml's BytesText::xml10_content and
/// BytesCData::xml10_content: the character data of a text or CDATA event,
/// line ends normalized.
#[verifier::external_body]
fn text_content(e: &MarkupEvent) -> (r: String)
    ensures
        r@ == markup_text_at(e.src@, e.index@),
{
    match &e.event {
        Event::Text(t) => t.xml10_content().into_owned(),
        Event::CData(t) => t.xml10_content().into_owned(),
        _ => String::new(),
    }
}

/// Relies on quick_xml's BytesRef::resolve_char_ref: the character a
/// character reference stands for.
#[verifier::external_body]
fn char_reference(e: &MarkupEvent) -> (r: Option<Option<String>>)
    ensures
        r matches Some(Some(c)) ==> markup_char_ref_at(e.src@, e.index@) == Some(Some(c@)),
        r matches Some(None) ==> markup_char_ref_at(e.src@, e.index@) == Some(
            None::<Seq<char>>,
        ),
        r is None <==> markup_char_ref_at(e.src@, e.index@) is None,
{
    match &e.event {
        Event::GeneralRef(t) => match t.resolve_char_ref() {
            Ok(c) => Some(c.map(|c| c.to_string())),
            Err(_) => None,
        },
        _ => Some(None),
    }
}

/// Relies on quick_xml::escape::resolve_predefined_entity: the text that a
/// predefined entity reference stands for.
#[verifier::external_body]
fn predefined_entity(e: &MarkupEvent) -> (r: Option<String>)
    ensures
        r is None <==> markup_entity_at(e.src@, e.index@) is None,
        r matches Some(s) ==> markup_entity_at(e.src@, e.index@) == Some(s@),
{
    match &e.event {
        Event::GeneralRef(t) => {
            quick_xml::escape::resolve_predefined_entity(t.as_ref()).map(|s| s.to_string())
        },
        _ => None,
    }
}

/// `rest` after `prefix`, when there is a rest.
pub open spec fn after<T>(prefix: Seq<T>, rest: Option<Seq<T>>) -> Option<Seq<T>> {
    match rest {
        Some(r) => Some(prefix + r),
        None => None,
    }
}

/// The attributes of the element event at `k` of `src` from position `j`
/// on, reading at most `left` more; `None` when one is malformed or there
/// are more.
pub open spec fn markup_attributes_from(src: Seq<char>, k: nat, j: nat, left: nat) -> Option<
    Seq<(Seq<char>, Seq<char>)>,
>
    decreases left,
{
    match markup_attribute_at(src, k, j) {
        None => Some(Seq::empty()),
        Some(None) => None,
        Some(Some(a)) => if left == 0 {
            None
        } else {
            after(seq![a], markup_attributes_from(src, k, j + 1, (left - 1) as nat))
        },
    }
}

/// The attributes of the element event at `k` of `src`: no more than
/// there are characters.
pub open spec fn markup_attributes(src: Seq<char>, k: nat) -> Option<Seq<(Seq<char>, Seq<char>)>> {
    markup_attributes_from(src, k, 0, src.len())
}

/// The text a reference event at `k` of `src` stands for, when it resolves.
pub open spec fn reference_text(src: Seq<char>, k: nat) -> Option<Seq<char>> {
    match markup_char_ref_at(src, k) {
        None => None,
        Some(Some(c)) => Some(c),
        Some(None) => markup_entity_at(src, k),
    }
}

/// The tokens of the event at `k` of `src`: an empty element becomes a
/// start and an end, a resolved reference becomes text, comments and
/// declarations none; `None` when the event cannot be read as tokens.
pub open spec fn event_tokens(src: Seq<char>, k: nat) -> Option<Seq<TokenView>> {
    match markup_kind_at(src, k) {
        MarkupKind::Start => match markup_attributes(src, k) {
            Some(a) => Some(seq![TokenView::Start { name: markup_name_at(src, k), attributes: a }]),
            None => None,
        },
        MarkupKind::Empty => match markup_attributes(src, k) {
            Some(a) => Some(
                seq![
                    TokenView::Start { name: markup_name_at(src, k), attributes: a },
                    TokenView::End,
                ],
            ),
            None => None,
        },
        MarkupKind::End => Some(seq![TokenView::End]),
        MarkupKind::Text => Some(seq![TokenView::Text { text: markup_text_at(src, k) }]),
        MarkupKind::Reference => match reference_text(src, k) {
            Some(t) => Some(seq![TokenView::Text { text: t }]),
            None => None,
        },
        _ => Some(Seq::empty()),
    }
}

/// The tokens of the events of `src` from position `k` on, reading at most
/// `left` more before the end; `None` when the markup is malformed.
pub open spec fn markup_tokens_from(src: Seq<char>, k: nat, left: nat) -> Option<Seq<TokenView>>
    decreases left,
{
    if markup_fails(src, k) {
        None
    } else if markup_kind_at(src, k) == MarkupKind::Eof {
        Some(Seq::empty())
    } else {
        match event_tokens(src, k) {
            None => None,
            Some(t) => if left == 0 {
                None
            } else {
                after(t, markup_tokens_from(src, k + 1, (left - 1) as nat))
            },
        }
    }
}

/// The tokens of the markup document `src`; `None` when it is malformed.
/// Every event but the last takes at least one character, so no more
/// events are read than there are characters.
pub open spec fn markup_tokens(src: Seq<char>) -> Option<Seq<TokenView>> {
    markup_tokens_from(src, 0, src.len())
}

/// The attributes of an element event, in document order.
fn collect_attributes(e: &MarkupEvent, limit: usize) -> (r: Result<Vec<XmlAttribute>, ConvertError>)
    requires
        limit == e.src@.len(),
    ensures
        r is Ok <==> markup_attributes(e.src@, e.index@) is Some,
        r matches Ok(v) ==> v@.map_values(|a: XmlAttribute| a@) == markup_attributes(
            e.src@,
            e.index@,
        ).unwrap(),
        r matches Err(x) ==> x == ConvertError::Syntax,
{
    let ghost src = e.src@;
    let ghost k = e.index@;
    let mut out: Vec<XmlAttribute> = Vec::new();
    let mut j: usize = 0;
    loop
        invariant
            j <= limit,
            src == e.src@,
            k == e.index@,
            limit == src.len(),
            markup_attributes(src, k) == after(
                out@.map_values(|a: XmlAttribute| a@),
                markup_attributes_from(src, k, j as nat, (limit - j) as nat),
            ),
        decreases limit - j,
    {
        let ghost pre = out@.map_values(|a: XmlAttribute| a@);
        match attribute_at(e, j) {
            Some(Some(a)) => {
                if j >= limit {
                    return Err(ConvertError::Syntax);
                }
                let ghost av = a@;
                out.push(a);
                assert(out@.map_values(|a: XmlAttribute| a@) =~= pre + seq![av]);
                proof {
                    let rest = markup_attributes_from(src, k, (j + 1) as nat, (limit - j - 1) as nat);
                    match rest {
                        Some(x) => assert(pre + (seq![av] + x) =~= (pre + seq![av]) + x),
                        None => {},
                    }
                }
            },
            Some(None) => {
                return Err(ConvertError::Syntax);
            },
            None => {
                assert(pre + Seq::<(Seq<char>, Seq<char>)>::empty() =~= pre);
                return Ok(out);
            },
        }
        j = j + 1;
    }
}

/// Splits a markup document into tokens (see `markup_tokens`).
pub fn tokenize(src: &str) -> (r: Result<Vec<Token>, ConvertError>)
    ensures
        r is Ok <==> markup_tokens(src@) is Some,
        r matches Ok(t) ==> token_views(t@) == markup_tokens(src@).unwrap(),
        r matches Err(x) ==> x == ConvertError::Syntax,
{
    let limit = src.unicode_len();
    let mut reader = open_reader(src);
    let mut tokens: Vec<Token> = Vec::new();
    let mut count: usize = 0;
    loop
        invariant
            count == reader.read@,
            reader.read@ <= limit,
            reader.src@ == src@,
            limit == src@.len(),
            markup_tokens(src@) == after(
                token_views(tokens@),
                markup_tokens_from(src@, reader.read@, (limit - reader.read@) as nat),
            ),
        decreases limit - reader.read@,
    {
        let ghost k = reader.read@;
        let ghost pre = token_views(tokens@);
        let e = match read_event(&mut reader) {
            Some(e) => e,
            None => {
                return Err(ConvertError::Syntax);
            },
        };
        let kind = markup_kind(&e);
        if let MarkupKind::Eof = kind {
            assert(pre + Seq::<TokenView>::empty() =~= pre);
            return Ok(tokens);
        }
        let ghost evs = event_tokens(src@, k);
        let mut new: Vec<Token> = Vec::new();
        match kind {
            MarkupKind::Start => {
                let attributes = collect_attributes(&e, limit)?;
                new.push(Token::Start { name: tag_name(&e), attributes });
            },
            MarkupKind::Empty => {
                let attributes = collect_attributes(&e, limit)?;
                new.push(Token::Start { name: tag_name(&e), attributes });
                new.push(Token::End);
            },
            MarkupKind::End => {
                new.push(Token::End);
            },
            MarkupKind::Text => {
                new.push(Token::Text { text: text_content(&e) });
            },
            MarkupKind::Reference => {
                let text = match char_reference(&e) {
                    None => {
                        return Err(ConvertError::Syntax);
                    },
                    Some(Some(c)) => c,
                    Some(None) => match predefined_entity(&e) {
                        Some(t) => t,
                        None => {
                            return Err(ConvertError::Syntax);
                        },
                    },
                };
                new.push(Token::Text { text });
            },
            _ => {},
        }
        assert(evs == Some(token_views(new@))) by {
            assert(token_views(new@) =~= evs.unwrap());
        }
        if count >= limit {
            return Err(ConvertError::Syntax);
        }
        count = count + 1;
        let ghost nv = token_views(new@);
        tokens.append(&mut new);
        proof {
            assert(token_views(tokens@) =~= pre + nv);
            let rest = markup_tokens_from(src@, (k + 1) as nat, (limit - k - 1) as nat);
            match rest {
                Some(x) => assert(pre + (nv + x) =~= (pre + nv) + x),
                None => {},
            }
        }
    }
}

/// Reads a partwise score document and turns its single part into a
/// delta-encoded track: what `convert` gives for the document's tokens, or
/// `Syntax` when its markup is malformed.
pub fn parse(src: &str) -> (r: Result<ScheduledTrack, ConvertError>)
    ensures
        markup_tokens(src@) is None ==> r == Err::<ScheduledTrack, ConvertError>(ConvertError::Syntax),
        markup_tokens(src@) matches Some(tv) ==> exists|t: Seq<Token>|
            token_views(t) == tv && #[trigger] converts_to(t, r),
{
    let tokens = tokenize(src)?;
    let r = convert(&tokens);
    assert(converts_to(tokens@, r));
    r
}

} // verus!
