use vstd::prelude::*;
use vstd::string::StringSliceAdditionalSpecFns;
use vstd::utf8::valid_utf8;
use crate::errors::ParseError;
use crate::wrappers::{string_bytes, bytes_to_string};
use crate::xml::{XmlElem, XmlNode, SElem, SNode, elem_model, node_model, nodes_model,
    attrs_model, spec_find_child, spec_attr, spec_child_text, spec_texts, spec_parse_document,
    find_child, attr_of, child_text, text_from, parse_document, lemma_nodes_model_index};
use vstd::slice::slice_to_vec;
use crate::bytes::bytes_eq;

verus! {

// The declarative mapping layer between the element tree of an Atom
// feed and the flat structures below: each field names the tag or
// attribute it is read from. Strings are carried verbatim; nothing is
// trimmed or interpreted here.

#[derive(Debug, Clone, PartialEq, Eq)]
pub struct Author {
    pub name: String,
}

#[derive(Debug, Clone, PartialEq, Eq)]
pub struct Link {
    pub href: String,
    pub mime_type: Option<String>,
    pub rel: Option<String>,
    pub title: Option<String>,
}

#[derive(Debug, Clone, PartialEq, Eq)]
pub struct Tag {
    pub term: String,
    pub scheme: Option<String>,
}

#[derive(Debug, Clone, PartialEq, Eq)]
pub struct Entry {
    pub id: String,
    pub updated: String,
    pub published: String,
    pub title: String,
    pub summary: String,
    pub author: Vec<Author>,
    pub link: Vec<Link>,
    pub tags: Vec<Tag>,
    pub comment: Option<String>,
    pub journal_ref: Option<String>,
    pub doi: Option<String>,
    pub primary_category: Option<String>,
}

#[derive(Debug, Clone, PartialEq, Eq)]
pub struct Feed {
    pub updated: String,
    pub id: String,
    pub title: String,
    pub link: Vec<Link>,
    pub entry: Vec<Entry>,
}

// Mathematical shapes of the above, over byte strings.

#[verifier::ext_equal]
pub struct LinkM {
    pub href: Seq<u8>,
    pub mime_type: Option<Seq<u8>>,
    pub rel: Option<Seq<u8>>,
    pub title: Option<Seq<u8>>,
}

#[verifier::ext_equal]
pub struct TagM {
    pub term: Seq<u8>,
    pub scheme: Option<Seq<u8>>,
}

#[verifier::ext_equal]
pub struct EntryM {
    pub id: Seq<u8>,
    pub updated: Seq<u8>,
    pub published: Seq<u8>,
    pub title: Seq<u8>,
    pub summary: Seq<u8>,
    pub authors: Seq<Seq<u8>>,
    pub links: Seq<LinkM>,
    pub tags: Seq<TagM>,
    pub comment: Option<Seq<u8>>,
    pub journal_ref: Option<Seq<u8>>,
    pub doi: Option<Seq<u8>>,
    pub primary_category: Option<Seq<u8>>,
}

#[verifier::ext_equal]
pub struct FeedM {
    pub updated: Seq<u8>,
    pub id: Seq<u8>,
    pub title: Seq<u8>,
    pub links: Seq<LinkM>,
    pub entries: Seq<EntryM>,
}

pub open spec fn opt_bytes(o: Option<String>) -> Option<Seq<u8>> {
    match o {
        None => None,
        Some(s) => Some(string_bytes(s)),
    }
}

pub open spec fn link_model(l: Link) -> LinkM {
    LinkM {
        href: string_bytes(l.href),
        mime_type: opt_bytes(l.mime_type),
        rel: opt_bytes(l.rel),
        title: opt_bytes(l.title),
    }
}

pub open spec fn tag_model(t: Tag) -> TagM {
    TagM { term: string_bytes(t.term), scheme: opt_bytes(t.scheme) }
}

pub open spec fn authors_model(v: Seq<Author>) -> Seq<Seq<u8>>
    decreases v,
{
    if v.len() == 0 {
        Seq::empty()
    } else {
        seq![string_bytes(v[0].name)] + authors_model(v.subrange(1, v.len() as int))
    }
}

pub open spec fn links_model(v: Seq<Link>) -> Seq<LinkM>
    decreases v,
{
    if v.len() == 0 {
        Seq::empty()
    } else {
        seq![link_model(v[0])] + links_model(v.subrange(1, v.len() as int))
    }
}

pub open spec fn tags_model(v: Seq<Tag>) -> Seq<TagM>
    decreases v,
{
    if v.len() == 0 {
        Seq::empty()
    } else {
        seq![tag_model(v[0])] + tags_model(v.subrange(1, v.len() as int))
    }
}

pub open spec fn entry_model(e: Entry) -> EntryM {
    EntryM {
        id: string_bytes(e.id),
        updated: string_bytes(e.updated),
        published: string_bytes(e.published),
        title: string_bytes(e.title),
        summary: string_bytes(e.summary),
        authors: authors_model(e.author@),
        links: links_model(e.link@),
        tags: tags_model(e.tags@),
        comment: opt_bytes(e.comment),
        journal_ref: opt_bytes(e.journal_ref),
        doi: opt_bytes(e.doi),
        primary_category: opt_bytes(e.primary_category),
    }
}

pub open spec fn entries_model(v: Seq<Entry>) -> Seq<EntryM>
    decreases v,
{
    if v.len() == 0 {
        Seq::empty()
    } else {
        seq![entry_model(v[0])] + entries_model(v.subrange(1, v.len() as int))
    }
}

pub open spec fn feed_model(f: Feed) -> FeedM {
    FeedM {
        updated: string_bytes(f.updated),
        id: string_bytes(f.id),
        title: string_bytes(f.title),
        links: links_model(f.link@),
        entries: entries_model(f.entry@),
    }
}

// ---------------------------------------------------------------------------
// Field extraction
// ---------------------------------------------------------------------------

/// The text of a required child element.
pub open spec fn spec_req_text(e: SElem, name: Seq<u8>) -> Result<Seq<u8>, ParseError> {
    match spec_child_text(e, name) {
        None => Err(ParseError::MissingField),
        Some(b) => if valid_utf8(b) {
            Ok(b)
        } else {
            Err(ParseError::BadEncoding)
        },
    }
}

/// The text of an optional child element.
pub open spec fn spec_opt_text(e: SElem, name: Seq<u8>) -> Result<Option<Seq<u8>>, ParseError> {
    match spec_child_text(e, name) {
        None => Ok(None),
        Some(b) => if valid_utf8(b) {
            Ok(Some(b))
        } else {
            Err(ParseError::BadEncoding)
        },
    }
}

/// The value of a required attribute of `e` itself.
pub open spec fn spec_req_attr(e: SElem, name: Seq<u8>) -> Result<Seq<u8>, ParseError> {
    match spec_attr(e.attrs, name, 0) {
        None => Err(ParseError::MissingField),
        Some(b) => if valid_utf8(b) {
            Ok(b)
        } else {
            Err(ParseError::BadEncoding)
        },
    }
}

/// The value of an optional attribute of `e` itself.
pub open spec fn spec_opt_attr(e: SElem, name: Seq<u8>) -> Result<Option<Seq<u8>>, ParseError> {
    match spec_attr(e.attrs, name, 0) {
        None => Ok(None),
        Some(b) => if valid_utf8(b) {
            Ok(Some(b))
        } else {
            Err(ParseError::BadEncoding)
        },
    }
}

fn req_text(e: &XmlElem, name: &[u8]) -> (r: Result<String, ParseError>)
    ensures
        match r {
            Ok(s) => spec_req_text(elem_model(*e), name@) == Ok::<Seq<u8>, ParseError>(
                string_bytes(s),
            ),
            Err(er) => spec_req_text(elem_model(*e), name@) == Err::<Seq<u8>, ParseError>(er),
        },
{
    match child_text(e, name) {
        None => Err(ParseError::MissingField),
        Some(b) => match bytes_to_string(b) {
            None => Err(ParseError::BadEncoding),
            Some(s) => Ok(s),
        },
    }
}

fn opt_text(e: &XmlElem, name: &[u8]) -> (r: Result<Option<String>, ParseError>)
    ensures
        match r {
            Ok(s) => spec_opt_text(elem_model(*e), name@) == Ok::<Option<Seq<u8>>, ParseError>(
                opt_bytes(s),
            ),
            Err(er) => spec_opt_text(elem_model(*e), name@) == Err::<Option<Seq<u8>>, ParseError>(
                er,
            ),
        },
{
    match child_text(e, name) {
        None => Ok(None),
        Some(b) => match bytes_to_string(b) {
            None => Err(ParseError::BadEncoding),
            Some(s) => Ok(Some(s)),
        },
    }
}

fn req_attr(e: &XmlElem, name: &[u8]) -> (r: Result<String, ParseError>)
    ensures
        match r {
            Ok(s) => spec_req_attr(elem_model(*e), name@) == Ok::<Seq<u8>, ParseError>(
                string_bytes(s),
            ),
            Err(er) => spec_req_attr(elem_model(*e), name@) == Err::<Seq<u8>, ParseError>(er),
        },
{
    match attr_of(e, name) {
        None => Err(ParseError::MissingField),
        Some(v) => match bytes_to_string(slice_to_vec(v.as_slice())) {
            None => Err(ParseError::BadEncoding),
            Some(s) => Ok(s),
        },
    }
}

fn opt_attr(e: &XmlElem, name: &[u8]) -> (r: Result<Option<String>, ParseError>)
    ensures
        match r {
            Ok(s) => spec_opt_attr(elem_model(*e), name@) == Ok::<Option<Seq<u8>>, ParseError>(
                opt_bytes(s),
            ),
            Err(er) => spec_opt_attr(elem_model(*e), name@) == Err::<Option<Seq<u8>>, ParseError>(
                er,
            ),
        },
{
    match attr_of(e, name) {
        None => Ok(None),
        Some(v) => match bytes_to_string(slice_to_vec(v.as_slice())) {
            None => Err(ParseError::BadEncoding),
            Some(s) => Ok(Some(s)),
        },
    }
}

// ---------------------------------------------------------------------------
// Lists of children
// ---------------------------------------------------------------------------

/// One `link` element: `href` is required, the rest is optional.
pub open spec fn link_of(c: SElem) -> Result<LinkM, ParseError> {
    match spec_req_attr(c, "href".spec_bytes()) {
        Err(e) => Err(e),
        Ok(h) => match spec_opt_attr(c, "type".spec_bytes()) {
            Err(e) => Err(e),
            Ok(mt) => match spec_opt_attr(c, "rel".spec_bytes()) {
                Err(e) => Err(e),
                Ok(rl) => match spec_opt_attr(c, "title".spec_bytes()) {
                    Err(e) => Err(e),
                    Ok(tl) => Ok(LinkM { href: h, mime_type: mt, rel: rl, title: tl }),
                },
            },
        },
    }
}

/// One `category` element: `term` is required, `scheme` is optional.
pub open spec fn tag_of(c: SElem) -> Result<TagM, ParseError> {
    match spec_req_attr(c, "term".spec_bytes()) {
        Err(e) => Err(e),
        Ok(t) => match spec_opt_attr(c, "scheme".spec_bytes()) {
            Err(e) => Err(e),
            Ok(sc) => Ok(TagM { term: t, scheme: sc }),
        },
    }
}

/// The author names, in order: each `author` child contributes the text
/// of its `name` child, which must be present.
pub open spec fn authors_of(cs: Seq<SNode>, i: int) -> Result<Seq<Seq<u8>>, ParseError>
    decreases cs.len() - i,
{
    if !(0 <= i < cs.len()) {
        Ok(Seq::empty())
    } else {
        match cs[i] {
            SNode::Elem(c) => if c.name == "author".spec_bytes() {
                match spec_req_text(c, "name".spec_bytes()) {
                    Err(e) => Err(e),
                    Ok(nm) => match authors_of(cs, i + 1) {
                        Err(e) => Err(e),
                        Ok(rest) => Ok(seq![nm] + rest),
                    },
                }
            } else {
                authors_of(cs, i + 1)
            },
            SNode::Text(_) => authors_of(cs, i + 1),
        }
    }
}

/// The `link` children, in order.
pub open spec fn links_of(cs: Seq<SNode>, i: int) -> Result<Seq<LinkM>, ParseError>
    decreases cs.len() - i,
{
    if !(0 <= i < cs.len()) {
        Ok(Seq::empty())
    } else {
        match cs[i] {
            SNode::Elem(c) => if c.name == "link".spec_bytes() {
                match link_of(c) {
                    Err(e) => Err(e),
                    Ok(l) => match links_of(cs, i + 1) {
                        Err(e) => Err(e),
                        Ok(rest) => Ok(seq![l] + rest),
                    },
                }
            } else {
                links_of(cs, i + 1)
            },
            SNode::Text(_) => links_of(cs, i + 1),
        }
    }
}

/// The `category` children, in order.
pub open spec fn tags_of(cs: Seq<SNode>, i: int) -> Result<Seq<TagM>, ParseError>
    decreases cs.len() - i,
{
    if !(0 <= i < cs.len()) {
        Ok(Seq::empty())
    } else {
        match cs[i] {
            SNode::Elem(c) => if c.name == "category".spec_bytes() {
                match tag_of(c) {
                    Err(e) => Err(e),
                    Ok(t) => match tags_of(cs, i + 1) {
                        Err(e) => Err(e),
                        Ok(rest) => Ok(seq![t] + rest),
                    },
                }
            } else {
                tags_of(cs, i + 1)
            },
            SNode::Text(_) => tags_of(cs, i + 1),
        }
    }
}

/// The `term` of the vendor's primary-category element, when present.
pub open spec fn pc_of(e: SElem) -> Result<Option<Seq<u8>>, ParseError> {
    match spec_find_child(e.children, "arxiv:primary_category".spec_bytes(), 0) {
        None => Ok(None),
        Some(c) => match spec_req_attr(c, "term".spec_bytes()) {
            Err(e) => Err(e),
            Ok(b) => Ok(Some(b)),
        },
    }
}

fn authors_from(e: &XmlElem, i: usize) -> (r: Result<Vec<Author>, ParseError>)
    requires
        i <= e.children@.len(),
    ensures
        match r {
            Ok(v) => authors_of(nodes_model(e.children@), i as int) == Ok::<
                Seq<Seq<u8>>,
                ParseError,
            >(authors_model(v@)),
            Err(er) => authors_of(nodes_model(e.children@), i as int) == Err::<
                Seq<Seq<u8>>,
                ParseError,
            >(er),
        },
    decreases e.children@.len() - i,
{
    proof {
        lemma_nodes_model_index(e.children@);
    }
    if i >= e.children.len() {
        let v: Vec<Author> = Vec::new();
        proof {
            assert(authors_model(v@) =~= Seq::<Seq<u8>>::empty());
        }
        Ok(v)
    } else {
        match &e.children[i] {
            XmlNode::Elem(c) => {
                if bytes_eq(c.name.as_slice(), "author".as_bytes()) {
                    match req_text(c, "name".as_bytes()) {
                        Err(er) => Err(er),
                        Ok(nm) => match authors_from(e, i + 1) {
                            Err(er) => Err(er),
                            Ok(rest) => {
                                let ghost nmb = string_bytes(nm);
                                let ghost rest0 = rest@;
                                let mut rest = rest;
                                rest.insert(0, Author { name: nm });
                                proof {
                                    assert(rest@.subrange(1, rest@.len() as int) =~= rest0);
                                    assert(string_bytes(rest@[0].name) == nmb);
                                    assert(authors_model(rest@) == seq![nmb] + authors_model(
                                        rest0,
                                    ));
                                }
                                Ok(rest)
                            },
                        },
                    }
                } else {
                    authors_from(e, i + 1)
                }
            },
            XmlNode::Text(_) => authors_from(e, i + 1),
        }
    }
}

fn build_link(c: &XmlElem) -> (r: Result<Link, ParseError>)
    ensures
        match r {
            Ok(l) => link_of(elem_model(*c)) == Ok::<LinkM, ParseError>(link_model(l)),
            Err(er) => link_of(elem_model(*c)) == Err::<LinkM, ParseError>(er),
        },
{
    let href = match req_attr(c, "href".as_bytes()) {
        Ok(s) => s,
        Err(er) => {
            return Err(er);
        },
    };
    let mime_type = match opt_attr(c, "type".as_bytes()) {
        Ok(s) => s,
        Err(er) => {
            return Err(er);
        },
    };
    let rel = match opt_attr(c, "rel".as_bytes()) {
        Ok(s) => s,
        Err(er) => {
            return Err(er);
        },
    };
    let title = match opt_attr(c, "title".as_bytes()) {
        Ok(s) => s,
        Err(er) => {
            return Err(er);
        },
    };
    let l = Link { href, mime_type, rel, title };
    proof {
        assert(link_of(elem_model(*c)) is Ok);
        assert(link_model(l) =~~= link_of(elem_model(*c))->Ok_0);
    }
    Ok(l)
}

fn build_tag(c: &XmlElem) -> (r: Result<Tag, ParseError>)
    ensures
        match r {
            Ok(t) => tag_of(elem_model(*c)) == Ok::<TagM, ParseError>(tag_model(t)),
            Err(er) => tag_of(elem_model(*c)) == Err::<TagM, ParseError>(er),
        },
{
    let term = match req_attr(c, "term".as_bytes()) {
        Ok(s) => s,
        Err(er) => {
            return Err(er);
        },
    };
    let scheme = match opt_attr(c, "scheme".as_bytes()) {
        Ok(s) => s,
        Err(er) => {
            return Err(er);
        },
    };
    let t = Tag { term, scheme };
    proof {
        assert(tag_of(elem_model(*c)) is Ok);
        assert(tag_model(t) =~~= tag_of(elem_model(*c))->Ok_0);
    }
    Ok(t)
}

fn links_from(e: &XmlElem, i: usize) -> (r: Result<Vec<Link>, ParseError>)
    requires
        i <= e.children@.len(),
    ensures
        match r {
            Ok(v) => links_of(nodes_model(e.children@), i as int) == Ok::<Seq<LinkM>, ParseError>(
                links_model(v@),
            ),
            Err(er) => links_of(nodes_model(e.children@), i as int) == Err::<
                Seq<LinkM>,
                ParseError,
            >(er),
        },
    decreases e.children@.len() - i,
{
    proof {
        lemma_nodes_model_index(e.children@);
    }
    if i >= e.children.len() {
        let v: Vec<Link> = Vec::new();
        proof {
            assert(links_model(v@) =~= Seq::<LinkM>::empty());
        }
        Ok(v)
    } else {
        match &e.children[i] {
            XmlNode::Elem(c) => {
                if bytes_eq(c.name.as_slice(), "link".as_bytes()) {
                    match build_link(c) {
                        Err(er) => Err(er),
                        Ok(l) => match links_from(e, i + 1) {
                            Err(er) => Err(er),
                            Ok(rest) => {
                                let ghost lm = link_model(l);
                                let ghost rest0 = rest@;
                                let mut rest = rest;
                                rest.insert(0, l);
                                proof {
                                    assert(rest@.subrange(1, rest@.len() as int) =~= rest0);
                                    assert(link_model(rest@[0]) == lm);
                                    assert(links_model(rest@) == seq![lm] + links_model(rest0));
                                }
                                Ok(rest)
                            },
                        },
                    }
                } else {
                    links_from(e, i + 1)
                }
            },
            XmlNode::Text(_) => links_from(e, i + 1),
        }
    }
}

fn tags_from(e: &XmlElem, i: usize) -> (r: Result<Vec<Tag>, ParseError>)
    requires
        i <= e.children@.len(),
    ensures
        match r {
            Ok(v) => tags_of(nodes_model(e.children@), i as int) == Ok::<Seq<TagM>, ParseError>(
                tags_model(v@),
            ),
            Err(er) => tags_of(nodes_model(e.children@), i as int) == Err::<Seq<TagM>, ParseError>(
                er,
            ),
        },
    decreases e.children@.len() - i,
{
    proof {
        lemma_nodes_model_index(e.children@);
    }
    if i >= e.children.len() {
        let v: Vec<Tag> = Vec::new();
        proof {
            assert(tags_model(v@) =~= Seq::<TagM>::empty());
        }
        Ok(v)
    } else {
        match &e.children[i] {
            XmlNode::Elem(c) => {
                if bytes_eq(c.name.as_slice(), "category".as_bytes()) {
                    match build_tag(c) {
                        Err(er) => Err(er),
                        Ok(t) => match tags_from(e, i + 1) {
                            Err(er) => Err(er),
                            Ok(rest) => {
                                let ghost tm = tag_model(t);
                                let ghost rest0 = rest@;
                                let mut rest = rest;
                                rest.insert(0, t);
                                proof {
                                    assert(rest@.subrange(1, rest@.len() as int) =~= rest0);
                                    assert(tag_model(rest@[0]) == tm);
                                    assert(tags_model(rest@) == seq![tm] + tags_model(rest0));
                                }
                                Ok(rest)
                            },
                        },
                    }
                } else {
                    tags_from(e, i + 1)
                }
            },
            XmlNode::Text(_) => tags_from(e, i + 1),
        }
    }
}

fn pc_from(e: &XmlElem) -> (r: Result<Option<String>, ParseError>)
    ensures
        match r {
            Ok(s) => pc_of(elem_model(*e)) == Ok::<Option<Seq<u8>>, ParseError>(opt_bytes(s)),
            Err(er) => pc_of(elem_model(*e)) == Err::<Option<Seq<u8>>, ParseError>(er),
        },
{
    match find_child(e, "arxiv:primary_category".as_bytes()) {
        None => Ok(None),
        Some(c) => match req_attr(c, "term".as_bytes()) {
            Err(er) => Err(er),
            Ok(s) => Ok(Some(s)),
        },
    }
}

// ---------------------------------------------------------------------------
// Entries and the feed
// ---------------------------------------------------------------------------

/// One `entry` element as the flat mapping above describes it.
pub open spec fn entry_of(c: SElem) -> Result<EntryM, ParseError> {
    match spec_req_text(c, "id".spec_bytes()) {
        Err(e) => Err(e),
        Ok(id) => match spec_req_text(c, "updated".spec_bytes()) {
            Err(e) => Err(e),
            Ok(updated) => match spec_req_text(c, "published".spec_bytes()) {
                Err(e) => Err(e),
                Ok(published) => match spec_req_text(c, "title".spec_bytes()) {
                    Err(e) => Err(e),
                    Ok(title) => match spec_req_text(c, "summary".spec_bytes()) {
                        Err(e) => Err(e),
                        Ok(summary) => match authors_of(c.children, 0) {
                            Err(e) => Err(e),
                            Ok(authors) => match links_of(c.children, 0) {
                                Err(e) => Err(e),
                                Ok(links) => match tags_of(c.children, 0) {
                                    Err(e) => Err(e),
                                    Ok(tags) => match spec_opt_text(
                                        c,
                                        "arxiv:comment".spec_bytes(),
                                    ) {
                                        Err(e) => Err(e),
                                        Ok(comment) => match spec_opt_text(
                                            c,
                                            "arxiv:journal_ref".spec_bytes(),
                                        ) {
                                            Err(e) => Err(e),
                                            Ok(journal_ref) => match spec_opt_text(
                                                c,
                                                "arxiv:doi".spec_bytes(),
                                            ) {
                                                Err(e) => Err(e),
                                                Ok(doi) => match pc_of(c) {
                                                    Err(e) => Err(e),
                                                    Ok(primary_category) => Ok(
                                                        EntryM {
                                                            id,
                                                            updated,
                                                            published,
                                                            title,
                                                            summary,
                                                            authors,
                                                            links,
                                                            tags,
                                                            comment,
                                                            journal_ref,
                                                            doi,
                                                            primary_category,
                                                        },
                                                    ),
                                                },
                                            },
                                        },
                                    },
                                },
                            },
                        },
                    },
                },
            },
        },
    }
}

/// The `entry` children of the feed, in order; the first failing entry
/// fails the whole feed.
pub open spec fn entries_of(cs: Seq<SNode>, i: int) -> Result<Seq<EntryM>, ParseError>
    decreases cs.len() - i,
{
    if !(0 <= i < cs.len()) {
        Ok(Seq::empty())
    } else {
        match cs[i] {
            SNode::Elem(c) => if c.name == "entry".spec_bytes() {
                match entry_of(c) {
                    Err(e) => Err(e),
                    Ok(en) => match entries_of(cs, i + 1) {
                        Err(e) => Err(e),
                        Ok(rest) => Ok(seq![en] + rest),
                    },
                }
            } else {
                entries_of(cs, i + 1)
            },
            SNode::Text(_) => entries_of(cs, i + 1),
        }
    }
}

/// The whole feed: the root element must be named `feed`; its `id`,
/// `updated` and `title` are required; links and entries are collected
/// in order.
pub open spec fn feed_of(root: SElem) -> Result<FeedM, ParseError> {
    if root.name != "feed".spec_bytes() {
        Err(ParseError::Malformed)
    } else {
        match spec_req_text(root, "updated".spec_bytes()) {
            Err(e) => Err(e),
            Ok(updated) => match spec_req_text(root, "id".spec_bytes()) {
                Err(e) => Err(e),
                Ok(id) => match spec_req_text(root, "title".spec_bytes()) {
                    Err(e) => Err(e),
                    Ok(title) => match links_of(root.children, 0) {
                        Err(e) => Err(e),
                        Ok(links) => match entries_of(root.children, 0) {
                            Err(e) => Err(e),
                            Ok(entries) => Ok(FeedM { updated, id, title, links, entries }),
                        },
                    },
                },
            },
        }
    }
}

/// What `parse_feed` returns on any input: the document grammar first,
/// then the field mapping.
pub open spec fn spec_parse_feed(xml: Seq<u8>) -> Result<FeedM, ParseError> {
    match spec_parse_document(xml) {
        None => Err(ParseError::Malformed),
        Some(root) => feed_of(root),
    }
}

fn build_entry(c: &XmlElem) -> (r: Result<Entry, ParseError>)
    ensures
        match r {
            Ok(en) => entry_of(elem_model(*c)) == Ok::<EntryM, ParseError>(entry_model(en)),
            Err(er) => entry_of(elem_model(*c)) == Err::<EntryM, ParseError>(er),
        },
{
    let id = match req_text(c, "id".as_bytes()) {
        Ok(s) => s,
        Err(er) => {
            return Err(er);
        },
    };
    let updated = match req_text(c, "updated".as_bytes()) {
        Ok(s) => s,
        Err(er) => {
            return Err(er);
        },
    };
    let published = match req_text(c, "published".as_bytes()) {
        Ok(s) => s,
        Err(er) => {
            return Err(er);
        },
    };
    let title = match req_text(c, "title".as_bytes()) {
        Ok(s) => s,
        Err(er) => {
            return Err(er);
        },
    };
    let summary = match req_text(c, "summary".as_bytes()) {
        Ok(s) => s,
        Err(er) => {
            return Err(er);
        },
    };
    let author = match authors_from(c, 0) {
        Ok(v) => v,
        Err(er) => {
            return Err(er);
        },
    };
    let link = match links_from(c, 0) {
        Ok(v) => v,
        Err(er) => {
            return Err(er);
        },
    };
    let tags = match tags_from(c, 0) {
        Ok(v) => v,
        Err(er) => {
            return Err(er);
        },
    };
    let comment = match opt_text(c, "arxiv:comment".as_bytes()) {
        Ok(s) => s,
        Err(er) => {
            return Err(er);
        },
    };
    let journal_ref = match opt_text(c, "arxiv:journal_ref".as_bytes()) {
        Ok(s) => s,
        Err(er) => {
            return Err(er);
        },
    };
    let doi = match opt_text(c, "arxiv:doi".as_bytes()) {
        Ok(s) => s,
        Err(er) => {
            return Err(er);
        },
    };
    let primary_category = match pc_from(c) {
        Ok(s) => s,
        Err(er) => {
            return Err(er);
        },
    };
    let en = Entry {
        id,
        updated,
        published,
        title,
        summary,
        author,
        link,
        tags,
        comment,
        journal_ref,
        doi,
        primary_category,
    };
    proof {
        assert(entry_of(elem_model(*c)) is Ok);
        assert(entry_model(en) =~~= entry_of(elem_model(*c))->Ok_0);
    }
    Ok(en)
}

fn entries_from(e: &XmlElem, i: usize) -> (r: Result<Vec<Entry>, ParseError>)
    requires
        i <= e.children@.len(),
    ensures
        match r {
            Ok(v) => entries_of(nodes_model(e.children@), i as int) == Ok::<
                Seq<EntryM>,
                ParseError,
            >(entries_model(v@)),
            Err(er) => entries_of(nodes_model(e.children@), i as int) == Err::<
                Seq<EntryM>,
                ParseError,
            >(er),
        },
    decreases e.children@.len() - i,
{
    proof {
        lemma_nodes_model_index(e.children@);
    }
    if i >= e.children.len() {
        let v: Vec<Entry> = Vec::new();
        proof {
            assert(entries_model(v@) =~= Seq::<EntryM>::empty());
        }
        Ok(v)
    } else {
        match &e.children[i] {
            XmlNode::Elem(c) => {
                if bytes_eq(c.name.as_slice(), "entry".as_bytes()) {
                    match build_entry(c) {
                        Err(er) => Err(er),
                        Ok(en) => match entries_from(e, i + 1) {
                            Err(er) => Err(er),
                            Ok(rest) => {
                                let ghost em = entry_model(en);
                                let ghost rest0 = rest@;
                                let mut rest = rest;
                                rest.insert(0, en);
                                proof {
                                    assert(rest@.subrange(1, rest@.len() as int) =~= rest0);
                                    assert(entry_model(rest@[0]) == em);
                                    assert(entries_model(rest@) == seq![em] + entries_model(
                                        rest0,
                                    ));
                                }
                                Ok(rest)
                            },
                        },
                    }
                } else {
                    entries_from(e, i + 1)
                }
            },
            XmlNode::Text(_) => entries_from(e, i + 1),
        }
    }
}

fn build_feed(root: &XmlElem) -> (r: Result<Feed, ParseError>)
    ensures
        match r {
            Ok(f) => feed_of(elem_model(*root)) == Ok::<FeedM, ParseError>(feed_model(f)),
            Err(er) => feed_of(elem_model(*root)) == Err::<FeedM, ParseError>(er),
        },
{
    if !bytes_eq(root.name.as_slice(), "feed".as_bytes()) {
        return Err(ParseError::Malformed);
    }
    let updated = match req_text(root, "updated".as_bytes()) {
        Ok(s) => s,
        Err(er) => {
            return Err(er);
        },
    };
    let id = match req_text(root, "id".as_bytes()) {
        Ok(s) => s,
        Err(er) => {
            return Err(er);
        },
    };
    let title = match req_text(root, "title".as_bytes()) {
        Ok(s) => s,
        Err(er) => {
            return Err(er);
        },
    };
    let link = match links_from(root, 0) {
        Ok(v) => v,
        Err(er) => {
            return Err(er);
        },
    };
    let entry = match entries_from(root, 0) {
        Ok(v) => v,
        Err(er) => {
            return Err(er);
        },
    };
    let f = Feed { updated, id, title, link, entry };
    proof {
        assert(feed_of(elem_model(*root)) is Ok);
        assert(feed_model(f) =~~= feed_of(elem_model(*root))->Ok_0);
    }
    Ok(f)
}

/// Decodes raw bytes into a feed: the exact grammar and field mapping
/// stand in `spec_parse_feed`; every failure is reported, never skipped.
pub fn parse_feed(xml: &[u8]) -> (r: Result<Feed, ParseError>)
    ensures
        match r {
            Ok(f) => spec_parse_feed(xml@) == Ok::<FeedM, ParseError>(feed_model(f)),
            Err(er) => spec_parse_feed(xml@) == Err::<FeedM, ParseError>(er),
        },
{
    match parse_document(xml) {
        None => Err(ParseError::Malformed),
        Some(root) => build_feed(&root),
    }
}

// ---------------------------------------------------------------------------
// Pointwise views of the list models
// ---------------------------------------------------------------------------

pub proof fn lemma_authors_model_index(v: Seq<Author>)
    ensures
        authors_model(v).len() == v.len(),
        forall|i: int| 0 <= i < v.len() ==> authors_model(v)[i] == string_bytes(
            (#[trigger] v[i]).name,
        ),
    decreases v,
{
    if v.len() > 0 {
        let tail = v.subrange(1, v.len() as int);
        lemma_authors_model_index(tail);
        assert forall|i: int|
            0 <= i < v.len() implies authors_model(v)[i] == string_bytes(
            (#[trigger] v[i]).name,
        ) by {
            if i > 0 {
                assert(authors_model(v)[i] == authors_model(tail)[i - 1]);
                assert(tail[i - 1] == v[i]);
            }
        }
    }
}

pub proof fn lemma_links_model_index(v: Seq<Link>)
    ensures
        links_model(v).len() == v.len(),
        forall|i: int| 0 <= i < v.len() ==> links_model(v)[i] == link_model(#[trigger] v[i]),
    decreases v,
{
    if v.len() > 0 {
        let tail = v.subrange(1, v.len() as int);
        lemma_links_model_index(tail);
        assert forall|i: int|
            0 <= i < v.len() implies links_model(v)[i] == link_model(#[trigger] v[i]) by {
            if i > 0 {
                assert(links_model(v)[i] == links_model(tail)[i - 1]);
                assert(tail[i - 1] == v[i]);
            }
        }
    }
}

pub proof fn lemma_tags_model_index(v: Seq<Tag>)
    ensures
        tags_model(v).len() == v.len(),
        forall|i: int| 0 <= i < v.len() ==> tags_model(v)[i] == tag_model(#[trigger] v[i]),
    decreases v,
{
    if v.len() > 0 {
        let tail = v.subrange(1, v.len() as int);
        lemma_tags_model_index(tail);
        assert forall|i: int|
            0 <= i < v.len() implies tags_model(v)[i] == tag_model(#[trigger] v[i]) by {
            if i > 0 {
                assert(tags_model(v)[i] == tags_model(tail)[i - 1]);
                assert(tail[i - 1] == v[i]);
            }
        }
    }
}

pub proof fn lemma_entries_model_index(v: Seq<Entry>)
    ensures
        entries_model(v).len() == v.len(),
        forall|i: int| 0 <= i < v.len() ==> entries_model(v)[i] == entry_model(#[trigger] v[i]),
    decreases v,
{
    if v.len() > 0 {
        let tail = v.subrange(1, v.len() as int);
        lemma_entries_model_index(tail);
        assert forall|i: int|
            0 <= i < v.len() implies entries_model(v)[i] == entry_model(#[trigger] v[i]) by {
            if i > 0 {
                assert(entries_model(v)[i] == entries_model(tail)[i - 1]);
                assert(tail[i - 1] == v[i]);
            }
        }
    }
}

/// Law: an entry without `author` elements yields an empty author list,
/// never a failure.
pub proof fn lemma_no_authors(cs: Seq<SNode>, i: int)
    requires
        forall|j: int|
            0 <= j < cs.len() && (#[trigger] cs[j]) is Elem ==> cs[j]->Elem_0.name
                != "author".spec_bytes(),
    ensures
        authors_of(cs, i) == Ok::<Seq<Seq<u8>>, ParseError>(Seq::empty()),
    decreases cs.len() - i,
{
    if 0 <= i < cs.len() {
        lemma_no_authors(cs, i + 1);
    }
}

} // verus!
