//! The documentation formatter of the generator: server documentation
//! arrives as small XML fragments, and a stack of open elements turns
//! them into markdown-flavoured text. Parameter, returns and remarks
//! elements open their section heading the first time one of their kind
//! appears.

use vstd::prelude::*;
use vstd::string::StrSliceExecFns;
use vstd::string::StringExecFns;

use crate::krpc_build::str_eq;

verus! {

/// Which heading the formatter is currently under.
#[derive(Clone, Copy, Debug, PartialEq, Eq, Structural)]
pub enum DocSection {
    Outside,
    Parameters,
    Returns,
    Remarks,
}

/// One open documentation element, with the text collected for it.
pub enum DocType {
    Code(String),
    Doc(String),
    Link { href: String, label: String },
    Math(String),
    ParamRef(String),
    Parameter { name: String, label: String },
    Remarks(String),
    Returns(String),
    Section(String),
    See { cref: String },
    Summary(String),
}

/// The view of an open element.
#[verifier::ext_equal]
pub enum DocTypeV {
    Code(Seq<char>),
    Doc(Seq<char>),
    Link { href: Seq<char>, label: Seq<char> },
    Math(Seq<char>),
    ParamRef(Seq<char>),
    Parameter { name: Seq<char>, label: Seq<char> },
    Remarks(Seq<char>),
    Returns(Seq<char>),
    Section(Seq<char>),
    See { cref: Seq<char> },
    Summary(Seq<char>),
}

impl View for DocType {
    type V = DocTypeV;

    open spec fn view(&self) -> DocTypeV {
        match self {
            DocType::Code(s) => DocTypeV::Code(s@),
            DocType::Doc(s) => DocTypeV::Doc(s@),
            DocType::Link { href, label } => DocTypeV::Link { href: href@, label: label@ },
            DocType::Math(s) => DocTypeV::Math(s@),
            DocType::ParamRef(s) => DocTypeV::ParamRef(s@),
            DocType::Parameter { name, label } => DocTypeV::Parameter {
                name: name@,
                label: label@,
            },
            DocType::Remarks(s) => DocTypeV::Remarks(s@),
            DocType::Returns(s) => DocTypeV::Returns(s@),
            DocType::Section(s) => DocTypeV::Section(s@),
            DocType::See { cref } => DocTypeV::See { cref: cref@ },
            DocType::Summary(s) => DocTypeV::Summary(s@),
        }
    }
}

/// The element with `t` appended to its collected text: to the label of
/// a link or parameter, to the reference of a see element, and to the
/// body of everything else.
pub open spec fn doc_push(d: DocTypeV, t: Seq<char>) -> DocTypeV {
    match d {
        DocTypeV::Code(s) => DocTypeV::Code(s + t),
        DocTypeV::Doc(s) => DocTypeV::Doc(s + t),
        DocTypeV::Link { href, label } => DocTypeV::Link { href, label: label + t },
        DocTypeV::Math(s) => DocTypeV::Math(s + t),
        DocTypeV::ParamRef(s) => DocTypeV::ParamRef(s + t),
        DocTypeV::Parameter { name, label } => DocTypeV::Parameter { name, label: label + t },
        DocTypeV::Remarks(s) => DocTypeV::Remarks(s + t),
        DocTypeV::Returns(s) => DocTypeV::Returns(s + t),
        DocTypeV::Section(s) => DocTypeV::Section(s + t),
        DocTypeV::See { cref } => DocTypeV::See { cref: cref + t },
        DocTypeV::Summary(s) => DocTypeV::Summary(s + t),
    }
}

/// The text with every `M:` struck out, scanning left to right.
pub open spec fn strip_member_marks(s: Seq<char>) -> Seq<char>
    decreases s.len(),
{
    if s.len() >= 2 && s[0] == 'M' && s[1] == ':' {
        strip_member_marks(s.skip(2))
    } else if s.len() == 0 {
        s
    } else {
        seq![s[0]] + strip_member_marks(s.drop_first())
    }
}

/// The rendered text of a closed element.
pub open spec fn doc_render(d: DocTypeV) -> Seq<char> {
    match d {
        DocTypeV::Summary(s) => s,
        DocTypeV::Doc(s) => s,
        DocTypeV::Returns(s) => s,
        DocTypeV::Remarks(s) => s,
        DocTypeV::Math(s) => s,
        DocTypeV::Section(s) => s,
        DocTypeV::Link { href, label } => "["@ + label + "]("@ + href + ")"@,
        DocTypeV::Parameter { name, label } => " - `"@ + name + "`: "@ + label,
        DocTypeV::ParamRef(s) => "`"@ + s + "`"@,
        DocTypeV::Code(s) => "`"@ + s + "`"@,
        DocTypeV::See { cref } => "`"@ + strip_member_marks(cref) + "`"@,
    }
}

/// The first attribute under `key`.
pub open spec fn spec_find_attr(
    attrs: Seq<(Seq<char>, Seq<char>)>,
    key: Seq<char>,
) -> Option<Seq<char>>
    decreases attrs.len(),
{
    if attrs.len() == 0 {
        None
    } else if attrs[0].0 == key {
        Some(attrs[0].1)
    } else {
        spec_find_attr(attrs.drop_first(), key)
    }
}

/// The views of a run of attributes.
pub open spec fn attr_views(s: Seq<(String, String)>) -> Seq<(Seq<char>, Seq<char>)>
    decreases s.len(),
{
    if s.len() == 0 {
        Seq::empty()
    } else {
        seq![(s[0].0@, s[0].1@)] + attr_views(s.drop_first())
    }
}

pub proof fn lemma_attr_views(s: Seq<(String, String)>)
    ensures
        attr_views(s).len() == s.len(),
        forall|i: int| 0 <= i < s.len() ==> attr_views(s)[i] == (s[i].0@, s[i].1@),
    decreases s.len(),
{
    if s.len() > 0 {
        lemma_attr_views(s.drop_first());
        assert(forall|i: int| 1 <= i < s.len()
            ==> attr_views(s)[i] == attr_views(s.drop_first())[i - 1]);
    }
}

/// The fresh element a start tag opens, by element name; nothing for an
/// unrecognised name or a tag missing its required attribute.
pub open spec fn spec_from_event(
    name: Seq<char>,
    attrs: Seq<(Seq<char>, Seq<char>)>,
) -> Option<DocTypeV> {
    if name == "summary"@ {
        Some(DocTypeV::Summary(Seq::empty()))
    } else if name == "a"@ {
        match spec_find_attr(attrs, "href"@) {
            Some(href) => Some(DocTypeV::Link { href, label: Seq::empty() }),
            None => None,
        }
    } else if name == "c"@ {
        Some(DocTypeV::Code(Seq::empty()))
    } else if name == "doc"@ {
        Some(DocTypeV::Doc(Seq::empty()))
    } else if name == "param"@ {
        match spec_find_attr(attrs, "name"@) {
            Some(n) => Some(DocTypeV::Parameter { name: n, label: Seq::empty() }),
            None => None,
        }
    } else if name == "paramref"@ {
        match spec_find_attr(attrs, "name"@) {
            Some(n) => Some(DocTypeV::ParamRef(n)),
            None => None,
        }
    } else if name == "returns"@ {
        Some(DocTypeV::Returns(Seq::empty()))
    } else if name == "remarks"@ {
        Some(DocTypeV::Remarks(Seq::empty()))
    } else if name == "see"@ {
        match spec_find_attr(attrs, "cref"@) {
            Some(cref) => Some(DocTypeV::See { cref }),
            None => None,
        }
    } else if name == "math"@ {
        Some(DocTypeV::Math(Seq::empty()))
    } else {
        None
    }
}

impl DocType {
    /// The first attribute under `key`.
    pub fn find_attr(key: &str, attrs: &Vec<(String, String)>) -> (r: Option<String>)
        ensures
            r matches Some(v) ==> spec_find_attr(attr_views(attrs@), key@) == Some(v@),
            r is None ==> spec_find_attr(attr_views(attrs@), key@) is None,
    {
        let ghost avs = attr_views(attrs@);
        proof {
            lemma_attr_views(attrs@);
        }
        let mut i: usize = 0;
        proof {
            assert(avs.skip(0) =~= avs);
        }
        while i < attrs.len()
            invariant
                i <= attrs@.len(),
                avs == attr_views(attrs@),
                avs.len() == attrs@.len(),
                forall|j: int| 0 <= j < attrs@.len() ==> avs[j] == (attrs@[j].0@, attrs@[j].1@),
                spec_find_attr(avs, key@) == spec_find_attr(avs.skip(i as int), key@),
            decreases attrs@.len() - i,
        {
            proof {
                assert(avs.skip(i as int)[0] == avs[i as int]);
                assert(avs.skip(i as int).drop_first() =~= avs.skip(i + 1));
            }
            if str_eq(attrs[i].0.as_str(), key) {
                return Some(attrs[i].1.clone());
            }
            i = i + 1;
        }
        proof {
            assert(avs.skip(i as int).len() == 0);
        }
        None
    }

    /// The fresh element a start tag opens.
    pub fn from_event(name: &str, attrs: &Vec<(String, String)>) -> (r: Option<DocType>)
        ensures
            r matches Some(d) ==> spec_from_event(name@, attr_views(attrs@)) == Some(d@),
            r is None ==> spec_from_event(name@, attr_views(attrs@)) is None,
    {
        if str_eq(name, "summary") {
            Some(DocType::Summary(String::new()))
        } else if str_eq(name, "a") {
            match Self::find_attr("href", attrs) {
                Some(href) => Some(DocType::Link { href, label: String::new() }),
                None => None,
            }
        } else if str_eq(name, "c") {
            Some(DocType::Code(String::new()))
        } else if str_eq(name, "doc") {
            Some(DocType::Doc(String::new()))
        } else if str_eq(name, "param") {
            match Self::find_attr("name", attrs) {
                Some(n) => Some(DocType::Parameter { name: n, label: String::new() }),
                None => None,
            }
        } else if str_eq(name, "paramref") {
            match Self::find_attr("name", attrs) {
                Some(n) => Some(DocType::ParamRef(n)),
                None => None,
            }
        } else if str_eq(name, "returns") {
            Some(DocType::Returns(String::new()))
        } else if str_eq(name, "remarks") {
            Some(DocType::Remarks(String::new()))
        } else if str_eq(name, "see") {
            match Self::find_attr("cref", attrs) {
                Some(cref) => Some(DocType::See { cref }),
                None => None,
            }
        } else if str_eq(name, "math") {
            Some(DocType::Math(String::new()))
        } else {
            None
        }
    }

    /// Appends text to the element's collected text.
    pub fn push_str(&mut self, s: &str)
        ensures
            final(self)@ == doc_push(old(self)@, s@),
    {
        match self {
            DocType::Summary(t) => t.append(s),
            DocType::Doc(t) => t.append(s),
            DocType::Returns(t) => t.append(s),
            DocType::ParamRef(t) => t.append(s),
            DocType::Remarks(t) => t.append(s),
            DocType::Code(t) => t.append(s),
            DocType::Math(t) => t.append(s),
            DocType::Section(t) => t.append(s),
            DocType::Link { label, .. } => label.append(s),
            DocType::Parameter { label, .. } => label.append(s),
            DocType::See { cref } => cref.append(s),
        }
    }

    /// Strikes every `M:` out of a member reference.
    fn strip_marks(s: &str) -> (r: String)
        ensures
            r@ == strip_member_marks(s@),
        decreases s@.len(),
    {
        let n = s.unicode_len();
        if n >= 2 && s.get_char(0) == 'M' && s.get_char(1) == ':' {
            let rest = s.substring_char(2, n);
            proof {
                assert(rest@ =~= s@.skip(2));
            }
            Self::strip_marks(rest)
        } else if n == 0 {
            String::new()
        } else {
            let mut head = s.substring_char(0, 1).to_owned();
            let rest = s.substring_char(1, n);
            proof {
                assert(rest@ =~= s@.drop_first());
                assert(s@.subrange(0, 1) =~= seq![s@[0]]);
            }
            let tail = Self::strip_marks(rest);
            head.append(tail.as_str());
            proof {
                assert(head@ =~= strip_member_marks(s@));
            }
            head
        }
    }

    /// The rendered text of the element.
    pub fn to_string(&self) -> (r: String)
        ensures
            r@ == doc_render(self@),
    {
        match self {
            DocType::Summary(s) => s.clone(),
            DocType::Doc(s) => s.clone(),
            DocType::Returns(s) => s.clone(),
            DocType::Remarks(s) => s.clone(),
            DocType::Math(s) => s.clone(),
            DocType::Section(s) => s.clone(),
            DocType::Link { href, label } => {
                let mut out = "[".to_owned();
                out.append(label.as_str());
                out.append("](");
                out.append(href.as_str());
                out.append(")");
                proof {
                    assert(out@ =~= doc_render(self@));
                }
                out
            },
            DocType::Parameter { name, label } => {
                let mut out = " - `".to_owned();
                out.append(name.as_str());
                out.append("`: ");
                out.append(label.as_str());
                proof {
                    assert(out@ =~= doc_render(self@));
                }
                out
            },
            DocType::ParamRef(s) => {
                let mut out = "`".to_owned();
                out.append(s.as_str());
                out.append("`");
                proof {
                    assert(out@ =~= doc_render(self@));
                }
                out
            },
            DocType::Code(s) => {
                let mut out = "`".to_owned();
                out.append(s.as_str());
                out.append("`");
                proof {
                    assert(out@ =~= doc_render(self@));
                }
                out
            },
            DocType::See { cref } => {
                let mut out = "`".to_owned();
                let stripped = Self::strip_marks(cref.as_str());
                out.append(stripped.as_str());
                out.append("`");
                proof {
                    assert(out@ =~= doc_render(self@));
                }
                out
            },
        }
    }
}

/// The views of a stack of open elements.
pub open spec fn doc_views(s: Seq<DocType>) -> Seq<DocTypeV>
    decreases s.len(),
{
    if s.len() == 0 {
        Seq::empty()
    } else {
        seq![s[0]@] + doc_views(s.drop_first())
    }
}

pub proof fn lemma_doc_views(s: Seq<DocType>)
    ensures
        doc_views(s).len() == s.len(),
        forall|i: int| 0 <= i < s.len() ==> doc_views(s)[i] == s[i]@,
    decreases s.len(),
{
    if s.len() > 0 {
        lemma_doc_views(s.drop_first());
        assert(forall|i: int| 1 <= i < s.len()
            ==> doc_views(s)[i] == doc_views(s.drop_first())[i - 1]);
    }
}

/// The heading line a section opens with.
pub open spec fn section_text(s: DocSection) -> Seq<char> {
    match s {
        DocSection::Outside => "# None\n"@,
        DocSection::Parameters => "# Parameters\n"@,
        DocSection::Returns => "# Returns\n"@,
        DocSection::Remarks => "# Remarks\n"@,
    }
}

/// The section an element belongs under, if it starts one.
pub open spec fn section_of(d: DocTypeV) -> Option<DocSection> {
    match d {
        DocTypeV::Parameter { .. } => Some(DocSection::Parameters),
        DocTypeV::Returns(_) => Some(DocSection::Returns),
        DocTypeV::Remarks(_) => Some(DocSection::Remarks),
        _ => None,
    }
}

/// What closing the innermost element does to a stack of open elements:
/// the closed element's rendering joins its parent's text, pseudo
/// section elements close in turn, and the rendering comes back exactly
/// when the stack has emptied.
pub open spec fn spec_close(stack: Seq<DocTypeV>) -> (Seq<DocTypeV>, Option<Seq<char>>)
    decreases stack.len(),
{
    if stack.len() == 0 {
        (stack, None)
    } else {
        let end = stack.last();
        let rest = stack.drop_last();
        let st1 = if rest.len() > 0 {
            rest.drop_last().push(doc_push(rest.last(), doc_render(end)))
        } else {
            rest
        };
        let st2 = if st1.len() > 0 && st1.last() is Section {
            spec_close(st1).0
        } else {
            st1
        };
        (st2, if st2.len() == 0 {
            Some(doc_render(end))
        } else {
            None
        })
    }
}

/// The stack of open elements and the heading state of one document.
pub struct DocContext {
    stack: Vec<DocType>,
    section: DocSection,
}

impl DocContext {
    /// How many elements are open.
    pub closed spec fn stack_view(&self) -> Seq<DocTypeV> {
        doc_views(self.stack@)
    }

    /// Which heading the formatter is under.
    pub closed spec fn section_view(&self) -> DocSection {
        self.section
    }

    pub fn new() -> (r: DocContext)
        ensures
            r.stack_view() == Seq::<DocTypeV>::empty(),
            r.section_view() == DocSection::Outside,
    {
        let r = DocContext { stack: Vec::new(), section: DocSection::Outside };
        proof {
            assert(doc_views(r.stack@) =~= Seq::<DocTypeV>::empty());
        }
        r
    }

    /// How many elements are open.
    pub fn depth(&self) -> (r: usize)
        ensures
            r == self.stack_view().len(),
    {
        proof {
            lemma_doc_views(self.stack@);
        }
        self.stack.len()
    }

    /// Opens the section heading for `section` if the formatter is not
    /// already under it: a pseudo element carrying the heading line goes
    /// onto the stack.
    pub fn push_section_maybe(&mut self, section: DocSection)
        ensures
            old(self).section_view() == section ==> *final(self) == *old(self),
            old(self).section_view() != section ==> {
                &&& final(self).stack_view()
                    == old(self).stack_view().push(DocTypeV::Section(section_text(section)))
                &&& final(self).section_view() == section
            },
    {
        if !section_eq(self.section, section) {
            let text: String = match section {
                DocSection::Outside => "# None\n".to_owned(),
                DocSection::Parameters => "# Parameters\n".to_owned(),
                DocSection::Returns => "# Returns\n".to_owned(),
                DocSection::Remarks => "# Remarks\n".to_owned(),
            };
            let ghost old_stack = self.stack@;
            let elem = DocType::Section(text);
            self.stack.push(elem);
            self.section = section;
            proof {
                lemma_doc_views(old_stack);
                lemma_doc_views(old_stack.push(elem));
                assert(doc_views(old_stack.push(elem)) =~= doc_views(old_stack).push(elem@));
            }
        }
    }

    /// Opens an element: parameter, returns and remarks elements open
    /// their section heading first, and the element itself goes onto the
    /// stack.
    pub fn open_element(&mut self, doc: DocType)
        ensures
            ({
                let marked = match section_of(doc@) {
                    Some(sec) => if old(self).section_view() == sec {
                        old(self).stack_view()
                    } else {
                        old(self).stack_view().push(DocTypeV::Section(section_text(sec)))
                    },
                    None => old(self).stack_view(),
                };
                &&& final(self).stack_view() == marked.push(doc@)
                &&& final(self).section_view() == (match section_of(doc@) {
                    Some(sec) => sec,
                    None => old(self).section_view(),
                })
            }),
    {
        match &doc {
            DocType::Parameter { .. } => self.push_section_maybe(DocSection::Parameters),
            DocType::Returns(_) => self.push_section_maybe(DocSection::Returns),
            DocType::Remarks(_) => self.push_section_maybe(DocSection::Remarks),
            _ => {},
        }
        let ghost mid_stack = self.stack@;
        self.stack.push(doc);
        proof {
            lemma_doc_views(mid_stack);
            lemma_doc_views(mid_stack.push(doc));
            assert(doc_views(mid_stack.push(doc)) =~= doc_views(mid_stack).push(doc@));
        }
    }

    /// Appends text to the innermost open element.
    pub fn push_str(&mut self, s: &str)
        requires
            old(self).stack_view().len() > 0,
        ensures
            final(self).stack_view() == old(self).stack_view().drop_last().push(
                doc_push(old(self).stack_view().last(), s@)),
            final(self).section_view() == old(self).section_view(),
    {
        proof {
            lemma_doc_views(self.stack@);
        }
        let n = self.stack.len();
        let ghost old_stack = self.stack@;
        let last = &mut self.stack[n - 1];
        last.push_str(s);
        proof {
            lemma_doc_views(old_stack);
            lemma_doc_views(self.stack@);
            assert(self.stack@ =~= old_stack.update(n - 1,
                self.stack@[n as int - 1]));
            assert(doc_views(self.stack@)
                =~= doc_views(old_stack).drop_last().push(self.stack@[n as int - 1]@));
        }
    }

    /// Closes the innermost element, as `spec_close` lays it out, and
    /// returns the whole document's text once the stack has emptied.
    pub fn close_element(&mut self) -> (r: Option<String>)
        requires
            old(self).stack_view().len() > 0,
        ensures
            final(self).stack_view() == spec_close(old(self).stack_view()).0,
            final(self).section_view() == old(self).section_view(),
            r matches Some(s) ==> spec_close(old(self).stack_view()).1 == Some(s@),
            r is None ==> spec_close(old(self).stack_view()).1 is None,
        decreases old(self).stack_view().len(),
    {
        let ghost orig = doc_views(self.stack@);
        proof {
            lemma_doc_views(self.stack@);
        }
        let end = match self.stack.pop() {
            Some(e) => e,
            None => {
                proof {
                    assert(false);
                }
                DocType::Doc(String::new())
            },
        };
        proof {
            assert(self.stack@ =~= old(self).stack@.drop_last());
            lemma_doc_views_drop_last(old(self).stack@);
        }
        let rendered = end.to_string();
        let n = self.stack.len();
        if n > 0 {
            let ghost mid_stack = self.stack@;
            let parent = &mut self.stack[n - 1];
            parent.push_str(rendered.as_str());
            proof {
                lemma_doc_views(mid_stack);
                lemma_doc_views(self.stack@);
                assert(self.stack@ =~= mid_stack.update(n - 1, self.stack@[n as int - 1]));
                assert(doc_views(self.stack@)
                    =~= doc_views(mid_stack).drop_last().push(self.stack@[n as int - 1]@));
            }
        }
        let ghost st1 = doc_views(self.stack@);
        // consume pseudo section elements
        let n2 = self.stack.len();
        let mut consumed = false;
        if n2 > 0 {
            let is_section = match &self.stack[n2 - 1] {
                DocType::Section(_) => true,
                _ => false,
            };
            if is_section {
                proof {
                    lemma_doc_views(self.stack@);
                    assert(doc_views(self.stack@).last() == self.stack@.last()@);
                }
                let _ = self.close_element();
                consumed = true;
            }
        }
        proof {
            lemma_doc_views(self.stack@);
            if !consumed {
                assert(doc_views(self.stack@) == st1);
                if st1.len() > 0 {
                    assert(st1.last() == self.stack@.last()@);
                }
            }
            assert(doc_views(self.stack@) == spec_close(orig).0);
        }
        if self.stack.len() == 0 {
            Some(rendered)
        } else {
            None
        }
    }
}

/// Compares two section marks.
fn section_eq(a: DocSection, b: DocSection) -> (r: bool)
    ensures
        r == (a == b),
{
    match (a, b) {
        (DocSection::Outside, DocSection::Outside) => true,
        (DocSection::Parameters, DocSection::Parameters) => true,
        (DocSection::Returns, DocSection::Returns) => true,
        (DocSection::Remarks, DocSection::Remarks) => true,
        _ => false,
    }
}

proof fn lemma_doc_views_drop_last(s: Seq<DocType>)
    requires
        s.len() > 0,
    ensures
        doc_views(s.drop_last()) == doc_views(s).drop_last(),
{
    lemma_doc_views(s);
    lemma_doc_views(s.drop_last());
    assert(doc_views(s.drop_last()) =~= doc_views(s).drop_last());
}


/// One token of a documentation fragment.
pub enum XmlToken {
    Open(String, Vec<(String, String)>),
    SelfClose(String, Vec<(String, String)>),
    Close(String),
    Text(String),
}

/// The view of one token.
#[verifier::ext_equal]
pub enum XmlTokenV {
    Open(Seq<char>, Seq<(Seq<char>, Seq<char>)>),
    SelfClose(Seq<char>, Seq<(Seq<char>, Seq<char>)>),
    Close(Seq<char>),
    Text(Seq<char>),
}

impl View for XmlToken {
    type V = XmlTokenV;

    open spec fn view(&self) -> XmlTokenV {
        match self {
            XmlToken::Open(n, a) => XmlTokenV::Open(n@, attr_views(a@)),
            XmlToken::SelfClose(n, a) => XmlTokenV::SelfClose(n@, attr_views(a@)),
            XmlToken::Close(n) => XmlTokenV::Close(n@),
            XmlToken::Text(t) => XmlTokenV::Text(t@),
        }
    }
}

/// The views of a run of tokens.
pub open spec fn token_views(s: Seq<XmlToken>) -> Seq<XmlTokenV>
    decreases s.len(),
{
    if s.len() == 0 {
        Seq::empty()
    } else {
        seq![s[0]@] + token_views(s.drop_first())
    }
}

pub proof fn lemma_token_views(s: Seq<XmlToken>)
    ensures
        token_views(s).len() == s.len(),
        forall|i: int| 0 <= i < s.len() ==> token_views(s)[i] == s[i]@,
    decreases s.len(),
{
    if s.len() > 0 {
        lemma_token_views(s.drop_first());
        assert(forall|i: int| 1 <= i < s.len()
            ==> token_views(s)[i] == token_views(s.drop_first())[i - 1]);
    }
}

/// What opening an element does to the stack and the heading state:
/// its section heading goes on first if the formatter is not under it,
/// then the element itself.
pub open spec fn spec_open(
    stack: Seq<DocTypeV>,
    section: DocSection,
    d: DocTypeV,
) -> (Seq<DocTypeV>, DocSection) {
    match section_of(d) {
        Some(sec) => if section == sec {
            (stack.push(d), sec)
        } else {
            (stack.push(DocTypeV::Section(section_text(sec))).push(d), sec)
        },
        None => (stack.push(d), section),
    }
}

/// What running the token stream through the stack machine yields: the
/// whole document's text the first time a close empties the stack, and
/// nothing when the stream ends first, meets an unrecognised element,
/// or closes more than it opened.
pub open spec fn spec_run_tokens(
    toks: Seq<XmlTokenV>,
    stack: Seq<DocTypeV>,
    section: DocSection,
) -> Option<Seq<char>>
    decreases toks.len(),
{
    if toks.len() == 0 {
        None
    } else {
        let rest = toks.drop_first();
        match toks[0] {
            XmlTokenV::Open(name, attrs) => match spec_from_event(name, attrs) {
                None => None,
                Some(d) => {
                    let (st2, sec2) = spec_open(stack, section, d);
                    spec_run_tokens(rest, st2, sec2)
                },
            },
            XmlTokenV::SelfClose(name, attrs) => match spec_from_event(name, attrs) {
                None => None,
                Some(d) => {
                    let (st2, sec2) = spec_open(stack, section, d);
                    let (st3, out) = spec_close(st2);
                    match out {
                        Some(s) => Some(s),
                        None => spec_run_tokens(rest, st3, sec2),
                    }
                },
            },
            XmlTokenV::Text(t) => if stack.len() == 0 {
                spec_run_tokens(rest, stack, section)
            } else {
                spec_run_tokens(rest, stack.drop_last().push(doc_push(stack.last(), t)),
                    section)
            },
            XmlTokenV::Close(_) => if stack.len() == 0 {
                None
            } else {
                let (st2, out) = spec_close(stack);
                match out {
                    Some(s) => Some(s),
                    None => spec_run_tokens(rest, st2, section),
                }
            },
        }
    }
}

/// A character a tag name may hold: anything but whitespace, the tag
/// terminator, or the self-closing slash.
pub open spec fn name_char_ok(c: char) -> bool {
    c != ' ' && c != '\t' && c != '\n' && c != '\r' && c != '>' && c != '/'
}

/// A token the tokenizer may hand out: tag names are nonempty and free
/// of delimiters.
pub open spec fn token_wf(t: XmlTokenV) -> bool {
    match t {
        XmlTokenV::Open(name, _) => name.len() > 0
            && forall|j: int| 0 <= j < name.len() ==> name_char_ok(#[trigger] name[j]),
        XmlTokenV::SelfClose(name, _) => name.len() > 0
            && forall|j: int| 0 <= j < name.len() ==> name_char_ok(#[trigger] name[j]),
        XmlTokenV::Close(name) => forall|j: int| 0 <= j < name.len()
            ==> #[trigger] name[j] != '>',
        XmlTokenV::Text(_) => true,
    }
}

pub open spec fn tokens_wf(ts: Seq<XmlTokenV>) -> bool {
    forall|i: int| 0 <= i < ts.len() ==> token_wf(#[trigger] ts[i])
}

/// True for the characters that end a tag name.
fn is_name_end(c: char) -> (r: bool)
    ensures
        r == !name_char_ok(c),
{
    c == ' ' || c == '\t' || c == '\n' || c == '\r' || c == '>' || c == '/'
}

/// True for whitespace inside a tag.
fn is_space(c: char) -> bool {
    c == ' ' || c == '\t' || c == '\n' || c == '\r'
}

/// Decodes one character reference by name.
fn entity_char(name: &str) -> Option<&'static str> {
    if str_eq(name, "amp") {
        Some("&")
    } else if str_eq(name, "lt") {
        Some("<")
    } else if str_eq(name, "gt") {
        Some(">")
    } else if str_eq(name, "quot") {
        Some("\"")
    } else if str_eq(name, "apos") {
        Some("'")
    } else {
        None
    }
}

/// Splits a documentation fragment into tags and text, decoding the
/// named character references the fragments use. Nothing comes back for
/// a fragment that is not well-formed enough to split; every token that
/// does come back is well formed.
pub fn tokenize(xml: &str) -> (r: Option<Vec<XmlToken>>)
    ensures
        r matches Some(toks) ==> tokens_wf(token_views(toks@)),
{
    let n = xml.unicode_len();
    let mut toks: Vec<XmlToken> = Vec::new();
    let mut i: usize = 0;
    proof {
        lemma_token_views(toks@);
    }
    while i < n
        invariant
            i <= n,
            n == xml@.len(),
            tokens_wf(token_views(toks@)),
        decreases n - i,
    {
        let c = xml.get_char(i);
        if c == '<' {
            if i + 1 < n && xml.get_char(i + 1) == '/' {
                let mut j: usize = i + 2;
                while j < n && xml.get_char(j) != '>'
                    invariant
                        i + 2 <= j <= n,
                        n == xml@.len(),
                        forall|k: int| i + 2 <= k < j ==> xml@[k] != '>',
                    decreases n - j,
                {
                    j = j + 1;
                }
                if j >= n {
                    return None;
                }
                let name = xml.substring_char(i + 2, j).to_owned();
                let ghost old_toks = toks@;
                let ghost namev = name@;
                toks.push(XmlToken::Close(name));
                proof {
                    lemma_tokens_wf_push(old_toks, toks@[old_toks.len() as int]);
                    assert(token_wf(XmlTokenV::Close(namev))) by {
                        assert(forall|k: int| 0 <= k < namev.len()
                            ==> #[trigger] namev[k] == xml@[i + 2 + k]);
                    };
                }
                i = j + 1;
            } else {
                let mut j: usize = i + 1;
                while j < n && !is_name_end(xml.get_char(j))
                    invariant
                        i + 1 <= j <= n,
                        n == xml@.len(),
                        forall|k: int| i + 1 <= k < j ==> name_char_ok(#[trigger] xml@[k]),
                    decreases n - j,
                {
                    j = j + 1;
                }
                if j >= n || j == i + 1 {
                    return None;
                }
                let name = xml.substring_char(i + 1, j).to_owned();
                let ghost namev = name@;
                proof {
                    assert(namev.len() > 0 && forall|k: int| 0 <= k < namev.len()
                        ==> name_char_ok(#[trigger] namev[k])) by {
                        assert(forall|k: int| 0 <= k < namev.len()
                            ==> #[trigger] namev[k] == xml@[i + 1 + k]);
                    };
                }
                let mut attrs: Vec<(String, String)> = Vec::new();
                let mut closed: Option<bool> = None;
                while closed.is_none() && j < n
                    invariant
                        i + 1 <= j <= n,
                        n == xml@.len(),
                        name@ == namev,
                        namev.len() > 0,
                        forall|k: int| 0 <= k < namev.len()
                            ==> name_char_ok(#[trigger] namev[k]),
                    decreases n - j,
                {
                    let cj = xml.get_char(j);
                    if is_space(cj) {
                        j = j + 1;
                    } else if cj == '>' {
                        j = j + 1;
                        closed = Some(false);
                    } else if cj == '/' {
                        if j + 1 < n && xml.get_char(j + 1) == '>' {
                            j = j + 2;
                            closed = Some(true);
                        } else {
                            return None;
                        }
                    } else {
                        // an attribute: key="value"
                        let k0 = j;
                        while j < n && xml.get_char(j) != '='
                            invariant
                                k0 <= j <= n,
                                n == xml@.len(),
                            decreases n - j,
                        {
                            j = j + 1;
                        }
                        if j >= n || j + 1 >= n || xml.get_char(j + 1) != '\'' && xml.get_char(
                            j + 1) != '"' {
                            return None;
                        }
                        let quote = xml.get_char(j + 1);
                        let key = xml.substring_char(k0, j).to_owned();
                        let v0 = j + 2;
                        j = v0;
                        while j < n && xml.get_char(j) != quote
                            invariant
                                v0 <= j <= n,
                                n == xml@.len(),
                            decreases n - j,
                        {
                            j = j + 1;
                        }
                        if j >= n {
                            return None;
                        }
                        let value = xml.substring_char(v0, j).to_owned();
                        attrs.push((key, value));
                        j = j + 1;
                    }
                }
                match closed {
                    None => {
                        return None;
                    },
                    Some(true) => {
                        let ghost old_toks = toks@;
                        toks.push(XmlToken::SelfClose(name, attrs));
                        proof {
                            lemma_tokens_wf_push(old_toks, toks@[old_toks.len() as int]);
                        }
                    },
                    Some(false) => {
                        let ghost old_toks = toks@;
                        toks.push(XmlToken::Open(name, attrs));
                        proof {
                            lemma_tokens_wf_push(old_toks, toks@[old_toks.len() as int]);
                        }
                    },
                }
                i = j;
            }
        } else {
            let mut text = String::new();
            let mut j: usize = i;
            while j < n && xml.get_char(j) != '<'
                invariant
                    i <= j <= n,
                    n == xml@.len(),
                decreases n - j,
            {
                let cj = xml.get_char(j);
                if cj == '&' {
                    let mut k: usize = j + 1;
                    while k < n && k - j <= 6 && xml.get_char(k) != ';'
                        invariant
                            j + 1 <= k <= n,
                            n == xml@.len(),
                        decreases n - k,
                    {
                        k = k + 1;
                    }
                    if k >= n || xml.get_char(k) != ';' {
                        return None;
                    }
                    let ename = xml.substring_char(j + 1, k);
                    match entity_char(ename) {
                        Some(decoded) => {
                            text.append(decoded);
                        },
                        None => {
                            return None;
                        },
                    }
                    j = k + 1;
                } else {
                    let piece = xml.substring_char(j, j + 1);
                    text.append(piece);
                    j = j + 1;
                }
            }
            let ghost old_toks = toks@;
            toks.push(XmlToken::Text(text));
            proof {
                lemma_tokens_wf_push(old_toks, toks@[old_toks.len() as int]);
            }
            i = j;
        }
    }
    Some(toks)
}

/// Pushing a well-formed token keeps a well-formed run well formed.
proof fn lemma_tokens_wf_push(s: Seq<XmlToken>, t: XmlToken)
    requires
        tokens_wf(token_views(s)),
        token_wf(t@),
    ensures
        tokens_wf(token_views(s.push(t))),
{
    lemma_token_views(s);
    lemma_token_views(s.push(t));
    assert forall|i: int| 0 <= i < token_views(s.push(t)).len()
        implies token_wf(#[trigger] token_views(s.push(t))[i]) by {
        if i < s.len() {
            assert(s.push(t)[i] == s[i]);
            assert(token_views(s)[i] == s[i]@);
        } else {
            assert(s.push(t)[i] == t);
        }
    };
}

/// Runs a token stream through the stack machine, exactly as
/// `spec_run_tokens` lays it out: the document's text comes back the
/// first time a close empties the stack.
pub fn run_doc_events(toks: &Vec<XmlToken>) -> (r: Option<String>)
    ensures
        r matches Some(s) ==> spec_run_tokens(token_views(toks@), Seq::empty(),
            DocSection::Outside) == Some(s@),
        r is None ==> spec_run_tokens(token_views(toks@), Seq::empty(),
            DocSection::Outside) is None,
{
    let ghost tvs = token_views(toks@);
    proof {
        lemma_token_views(toks@);
    }
    let mut ctx = DocContext::new();
    let mut i: usize = 0;
    proof {
        assert(tvs.skip(0) =~= tvs);
    }
    while i < toks.len()
        invariant
            i <= toks@.len(),
            tvs == token_views(toks@),
            tvs.len() == toks@.len(),
            forall|j: int| 0 <= j < toks@.len() ==> tvs[j] == toks@[j]@,
            spec_run_tokens(tvs, Seq::empty(), DocSection::Outside)
                == spec_run_tokens(tvs.skip(i as int), ctx.stack_view(), ctx.section_view()),
        decreases toks@.len() - i,
    {
        let ghost stack0 = ctx.stack_view();
        let ghost section0 = ctx.section_view();
        proof {
            assert(tvs.skip(i as int)[0] == tvs[i as int]);
            assert(tvs.skip(i as int).drop_first() =~= tvs.skip(i + 1));
        }
        match &toks[i] {
            XmlToken::Open(name, attrs) => {
                match DocType::from_event(name.as_str(), attrs) {
                    Some(d) => {
                        let ghost dv = d@;
                        ctx.open_element(d);
                        proof {
                            assert((ctx.stack_view(), ctx.section_view())
                                == spec_open(stack0, section0, dv));
                        }
                    },
                    None => {
                        return None;
                    },
                }
            },
            XmlToken::SelfClose(name, attrs) => {
                match DocType::from_event(name.as_str(), attrs) {
                    Some(d) => {
                        let ghost dv = d@;
                        ctx.open_element(d);
                        proof {
                            assert((ctx.stack_view(), ctx.section_view())
                                == spec_open(stack0, section0, dv));
                        }
                    },
                    None => {
                        return None;
                    },
                }
                if ctx.depth() == 0 {
                    proof {
                        assert(false);
                    }
                    return None;
                }
                if let Some(done) = ctx.close_element() {
                    return Some(done);
                }
            },
            XmlToken::Text(s) => {
                if ctx.depth() > 0 {
                    ctx.push_str(s.as_str());
                }
            },
            XmlToken::Close(_) => {
                if ctx.depth() == 0 {
                    return None;
                }
                if let Some(done) = ctx.close_element() {
                    return Some(done);
                }
            },
        }
        i = i + 1;
    }
    proof {
        assert(tvs.skip(i as int).len() == 0);
    }
    None
}

/// Formats one XML documentation fragment as markdown-flavoured text:
/// the fragment splits into tokens, elements open and close on a stack,
/// text joins the innermost open element, and the whole document's text
/// comes back when its root closes. Nothing comes back for a fragment
/// that is malformed, uses an unrecognised element, or never closes its
/// root. Any returned text is a run of the token/stack machine.
pub fn parse_doc(xml: &str) -> (r: Option<String>)
    ensures
        r matches Some(s) ==> exists|toks: Seq<XmlTokenV>| tokens_wf(toks)
            && #[trigger] spec_run_tokens(toks, Seq::empty(), DocSection::Outside)
                == Some(s@),
{
    let toks = match tokenize(xml) {
        Some(t) => t,
        None => {
            return None;
        },
    };
    let r = run_doc_events(&toks);
    proof {
        if r is Some {
            let s = r->Some_0;
            assert(spec_run_tokens(token_views(toks@), Seq::empty(), DocSection::Outside)
                == Some(s@));
        }
    }
    r
}

} // verus!