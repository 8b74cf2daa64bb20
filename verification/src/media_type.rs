//! The media type as a structured value: its parts, its constructors, its
//! accessors, and the type groups of the MIME Sniffing standard.

use vstd::prelude::*;
use charsets::Charset;
use crate::charset::charset_name;
use crate::charset::charset_of;
use crate::charset::charset_text;
use crate::charset::found_charset;
use crate::charset::lookup_charset;
use crate::charset::utf8_charset;
use crate::error::Error;
use crate::grammar::boundary;
use crate::grammar::is_boundary;
use crate::params::put;
use crate::params::value_of;
use crate::params::Entries;
use crate::params::Parameters;
use crate::text::is_lower_case;
use crate::text::text_equal;

verus! {

/// The top-level media types: five discrete ones, two composite ones, the
/// type for 3D models, and any other by its name.
#[derive(Clone, Debug)]
pub enum Type {
    /// The "text" top-level type is intended for sending material that is
    /// principally textual in form.
    Text,
    /// A top-level type of "image" indicates that the content specifies one
    /// or more individual images.
    Image,
    /// A top-level type of "audio" indicates that the content contains audio
    /// data.
    Audio,
    /// A top-level type of "video" indicates that the content specifies a
    /// time-varying-picture image, possibly with color and coordinated sound.
    Video,
    /// The "application" top-level type is to be used for discrete data that
    /// do not fit under any of the other type names, and particularly for
    /// data to be processed by some type of application program.
    Application,
    /// The "multipart" top-level type is to be used for data consisting of
    /// multiple entities of independent data types.
    Multipart,
    /// A body of media type "message" is itself all or a portion of some kind
    /// of message object.
    Message,
    /// The "model" media type is used for 3D models.
    Model,
    /// Less common top-level types.
    Unregistered(String),
}

/// What a `Type` is, with its name as text.
pub enum TypeView {
    Text,
    Image,
    Audio,
    Video,
    Application,
    Multipart,
    Message,
    Model,
    Unregistered(Seq<char>),
}

impl View for Type {
    type V = TypeView;

    open spec fn view(&self) -> TypeView {
        match self {
            Type::Text => TypeView::Text,
            Type::Image => TypeView::Image,
            Type::Audio => TypeView::Audio,
            Type::Video => TypeView::Video,
            Type::Application => TypeView::Application,
            Type::Multipart => TypeView::Multipart,
            Type::Message => TypeView::Message,
            Type::Model => TypeView::Model,
            Type::Unregistered(name) => TypeView::Unregistered(name@),
        }
    }
}

/// The name under which a top-level type is written.
pub open spec fn name_of_type(t: TypeView) -> Seq<char> {
    match t {
        TypeView::Text => "text"@,
        TypeView::Image => "image"@,
        TypeView::Audio => "audio"@,
        TypeView::Video => "video"@,
        TypeView::Application => "application"@,
        TypeView::Multipart => "multipart"@,
        TypeView::Message => "message"@,
        TypeView::Model => "model"@,
        TypeView::Unregistered(name) => name,
    }
}

impl Type {
    /// The name under which this type is written.
    pub fn as_str(&self) -> (r: &str)
        ensures
            r@ == name_of_type(self@),
    {
        match self {
            Type::Text => "text",
            Type::Image => "image",
            Type::Audio => "audio",
            Type::Video => "video",
            Type::Application => "application",
            Type::Multipart => "multipart",
            Type::Message => "message",
            Type::Model => "model",
            Type::Unregistered(name) => name.as_str(),
        }
    }

    /// The name under which this type is written.
    pub fn to_string(&self) -> (r: String)
        ensures
            r@ == name_of_type(self@),
    {
        self.as_str().to_owned()
    }
}

impl PartialEq for Type {
    /// Tests whether both are the same type. An unregistered type is no
    /// registered one, whatever its name.
    fn eq(&self, other: &Type) -> (r: bool) {
        match (self, other) {
            (Type::Text, Type::Text) => true,
            (Type::Image, Type::Image) => true,
            (Type::Audio, Type::Audio) => true,
            (Type::Video, Type::Video) => true,
            (Type::Application, Type::Application) => true,
            (Type::Multipart, Type::Multipart) => true,
            (Type::Message, Type::Message) => true,
            (Type::Model, Type::Model) => true,
            (Type::Unregistered(a), Type::Unregistered(b)) => text_equal(a.as_str(), b.as_str()),
            _ => false,
        }
    }
}

impl vstd::std_specs::cmp::PartialEqSpecImpl for Type {
    open spec fn obeys_eq_spec() -> bool {
        true
    }

    open spec fn eq_spec(&self, other: &Type) -> bool {
        self@ == other@
    }
}

impl Eq for Type {

}

/// The registration trees: the four of RFC 6838, and any other by the facet
/// that names it.
#[derive(Clone, Debug)]
pub enum Tree {
    /// The standards tree is intended for types of general interest to the
    /// Internet community.
    Standards,
    /// The vendor tree is used for media types associated with publicly
    /// available products.
    Vendor,
    /// Registrations for media types created experimentally or as part of
    /// products that are not distributed commercially may be registered in
    /// the personal or vanity tree.
    Personal,
    /// Subtype names with "x." as the first facet may be used for types
    /// intended exclusively for use in private, local environments.
    Private,
    /// Other unofficial trees.
    Unregistered(String),
}

/// What a `Tree` is, with its facet as text.
pub enum TreeView {
    Standards,
    Vendor,
    Personal,
    Private,
    Unregistered(Seq<char>),
}

impl View for Tree {
    type V = TreeView;

    open spec fn view(&self) -> TreeView {
        match self {
            Tree::Standards => TreeView::Standards,
            Tree::Vendor => TreeView::Vendor,
            Tree::Personal => TreeView::Personal,
            Tree::Private => TreeView::Private,
            Tree::Unregistered(facet) => TreeView::Unregistered(facet@),
        }
    }
}

/// What a registration tree puts before the subtype: its facet and a dot, or
/// nothing for the standards tree.
pub open spec fn tree_prefix(t: TreeView) -> Seq<char> {
    match t {
        TreeView::Standards => Seq::empty(),
        TreeView::Vendor => "vnd."@,
        TreeView::Personal => "prs."@,
        TreeView::Private => "x."@,
        TreeView::Unregistered(facet) => facet + "."@,
    }
}

impl Tree {
    /// What this tree puts before the subtype.
    pub fn to_string(&self) -> (r: String)
        ensures
            r@ == tree_prefix(self@),
    {
        match self {
            Tree::Standards => String::new(),
            Tree::Vendor => "vnd.".to_owned(),
            Tree::Personal => "prs.".to_owned(),
            Tree::Private => "x.".to_owned(),
            Tree::Unregistered(facet) => {
                let mut r = facet.clone();
                r.append(".");
                r
            },
        }
    }
}

impl PartialEq for Tree {
    /// Tests whether both are the same tree. An unregistered tree is no
    /// registered one, whatever its facet.
    fn eq(&self, other: &Tree) -> (r: bool) {
        match (self, other) {
            (Tree::Standards, Tree::Standards) => true,
            (Tree::Vendor, Tree::Vendor) => true,
            (Tree::Personal, Tree::Personal) => true,
            (Tree::Private, Tree::Private) => true,
            (Tree::Unregistered(a), Tree::Unregistered(b)) => text_equal(a.as_str(), b.as_str()),
            _ => false,
        }
    }
}

impl vstd::std_specs::cmp::PartialEqSpecImpl for Tree {
    open spec fn obeys_eq_spec() -> bool {
        true
    }

    open spec fn eq_spec(&self, other: &Tree) -> bool {
        self@ == other@
    }
}

impl Eq for Tree {

}

/// The subtype of a media type as text: its registration tree, its name, and
/// its structured-syntax suffix if it has one.
pub type SubtypeView = (TreeView, Seq<char>, Option<Seq<char>>);

/// What a `MediaType` is, with all text as sequences of characters.
pub struct MediaTypeView {
    /// The top-level type, or `None` for any type.
    pub type_: Option<TypeView>,
    /// The subtype, or `None` for any subtype.
    pub subtype: Option<SubtypeView>,
    /// The parameters, in the order of their keys.
    pub parameters: Entries,
}

/// A media type, commonly used to describe the contents of a resource.
#[derive(Clone, Debug)]
pub struct MediaType {
    /// The top-level type or `None` to match all types.
    pub type_: Option<Type>,
    /// A subtype describing the concrete file format. The first element of
    /// the tuple is the registration tree: it tells whether the type is
    /// registered by a standards organization or a vendor, or is only for
    /// private use. The second element is the subtype, which describes the
    /// resource. The last element is the suffix, which tells how the file was
    /// encoded; common values are "xml" and "json".
    pub subtype: Option<(Tree, String, Option<String>)>,
    /// Media types can contain optional parameters, for example for charsets
    /// or video codecs.
    pub parameters: Parameters,
}

/// The subtype of a media type as text.
pub open spec fn subtype_view(subtype: Option<(Tree, String, Option<String>)>) -> Option<
    SubtypeView,
> {
    match subtype {
        None => None,
        Some((tree, name, suffix)) => Some(
            (
                tree@,
                name@,
                match suffix {
                    None => None,
                    Some(text) => Some(text@),
                },
            ),
        ),
    }
}

impl View for MediaType {
    type V = MediaTypeView;

    open spec fn view(&self) -> MediaTypeView {
        MediaTypeView {
            type_: match self.type_ {
                None => None,
                Some(t) => Some(t@),
            },
            subtype: subtype_view(self.subtype),
            parameters: self.parameters@,
        }
    }
}

/// Tests whether two media types have the same mime type portion: the same
/// type, tree, subtype and suffix, whatever their parameters.
pub open spec fn same_mime_portion(a: MediaTypeView, b: MediaTypeView) -> bool {
    a.type_ == b.type_ && a.subtype == b.subtype
}

/// Tests whether the name of an unregistered type holds no capital ASCII
/// letter.
pub open spec fn lower_case_type(type_: Option<TypeView>) -> bool {
    type_ matches Some(TypeView::Unregistered(name)) ==> is_lower_case(name)
}

/// Tests whether the name of an unregistered tree, the name of the subtype
/// and the suffix hold no capital ASCII letter.
pub open spec fn lower_case_subtype(subtype: Option<SubtypeView>) -> bool {
    subtype matches Some((tree, name, suffix)) ==> {
        &&& tree matches TreeView::Unregistered(facet) ==> is_lower_case(facet)
        &&& is_lower_case(name)
        &&& suffix matches Some(text) ==> is_lower_case(text)
    }
}

/// Tests whether the type, the tree, the subtype, the suffix and the keys of
/// the parameters hold no capital ASCII letter.
pub open spec fn lower_case_fields(v: MediaTypeView) -> bool {
    &&& lower_case_type(v.type_)
    &&& lower_case_subtype(v.subtype)
    &&& forall|i: int| 0 <= i < v.parameters.len() ==> is_lower_case((#[trigger] v.parameters[i]).0)
}

/// The media type with the given type, tree and subtype, and with neither
/// suffix nor parameters.
pub open spec fn plain(type_: TypeView, tree: TreeView, subtype: Seq<char>) -> MediaTypeView {
    MediaTypeView {
        type_: Some(type_),
        subtype: Some((tree, subtype, None)),
        parameters: Seq::empty(),
    }
}

/// The suffix of a media type, if it has one.
pub open spec fn suffix_of(v: MediaTypeView) -> Option<Seq<char>> {
    match v.subtype {
        Some((_, _, suffix)) => suffix,
        None => None,
    }
}

/// The image types: those of the top-level type "image".
pub open spec fn is_image(v: MediaTypeView) -> bool {
    v.type_ == Some(TypeView::Image)
}

/// The audio and video types: those of the top-level types "audio" and
/// "video", and `application/ogg`.
pub open spec fn is_audio_or_video(v: MediaTypeView) -> bool {
    ||| v.type_ == Some(TypeView::Audio)
    ||| v.type_ == Some(TypeView::Video)
    ||| same_mime_portion(plain(TypeView::Application, TreeView::Standards, "ogg"@), v)
}

/// The font types: seven subtypes of "application".
pub open spec fn is_font(v: MediaTypeView) -> bool {
    ||| same_mime_portion(plain(TypeView::Application, TreeView::Standards, "font-ttf"@), v)
    ||| same_mime_portion(plain(TypeView::Application, TreeView::Standards, "font-cff"@), v)
    ||| same_mime_portion(plain(TypeView::Application, TreeView::Standards, "font-off"@), v)
    ||| same_mime_portion(plain(TypeView::Application, TreeView::Standards, "font-sfnt"@), v)
    ||| same_mime_portion(plain(TypeView::Application, TreeView::Vendor, "ms-opentype"@), v)
    ||| same_mime_portion(plain(TypeView::Application, TreeView::Standards, "font-woff"@), v)
    ||| same_mime_portion(plain(TypeView::Application, TreeView::Vendor, "ms-fontobject"@), v)
}

/// The ZIP-based types: those with the suffix "zip", and `application/zip`.
pub open spec fn is_zip_based(v: MediaTypeView) -> bool {
    ||| suffix_of(v) == Some("zip"@)
    ||| same_mime_portion(plain(TypeView::Application, TreeView::Standards, "zip"@), v)
}

/// The archive types: three subtypes of "application".
pub open spec fn is_archive(v: MediaTypeView) -> bool {
    ||| same_mime_portion(
        plain(TypeView::Application, TreeView::Standards, "x-rar-compressed"@),
        v,
    )
    ||| same_mime_portion(plain(TypeView::Application, TreeView::Standards, "zip"@), v)
    ||| same_mime_portion(plain(TypeView::Application, TreeView::Standards, "x-gzip"@), v)
}

/// The XML types: those with the suffix "xml", `text/xml` and
/// `application/xml`.
pub open spec fn is_xml(v: MediaTypeView) -> bool {
    ||| suffix_of(v) == Some("xml"@)
    ||| same_mime_portion(plain(TypeView::Text, TreeView::Standards, "xml"@), v)
    ||| same_mime_portion(plain(TypeView::Application, TreeView::Standards, "xml"@), v)
}

/// The scriptable types: `text/html` and `application/pdf`.
pub open spec fn is_scriptable(v: MediaTypeView) -> bool {
    ||| same_mime_portion(plain(TypeView::Text, TreeView::Standards, "html"@), v)
    ||| same_mime_portion(plain(TypeView::Application, TreeView::Standards, "pdf"@), v)
}

/// The boundary of a media type with these parameters: the value under
/// `boundary`, which has to be there and to keep to the grammar.
pub open spec fn boundary_of(parameters: Entries) -> Result<Seq<char>, Error> {
    match value_of(parameters, "boundary"@) {
        None => Err(Error::NotFound),
        Some(value) => if is_boundary(value) {
            Ok(value)
        } else {
            Err(Error::Invalid)
        },
    }
}

/// Tests whether two optional texts are the same.
fn same_text(a: &Option<String>, b: &Option<String>) -> (r: bool)
    ensures
        r == (match (*a, *b) {
            (None, None) => true,
            (Some(x), Some(y)) => x@ == y@,
            _ => false,
        }),
{
    match (a, b) {
        (None, None) => true,
        (Some(x), Some(y)) => text_equal(x.as_str(), y.as_str()),
        _ => false,
    }
}

impl MediaType {
    /// Creates the wildcard media type `*/*`.
    pub fn wildcard() -> (r: MediaType)
        ensures
            r@ == (MediaTypeView { type_: None, subtype: None, parameters: Seq::empty() }),
    {
        MediaType { type_: None, subtype: None, parameters: Parameters::new() }
    }

    /// Creates a media type with only a concrete type and no subtype, like
    /// `image/*`.
    pub fn wildcard_subtype(type_: Type) -> (r: MediaType)
        ensures
            r@ == (MediaTypeView {
                type_: Some(type_@),
                subtype: None,
                parameters: Seq::empty(),
            }),
    {
        MediaType { type_: Some(type_), subtype: None, parameters: Parameters::new() }
    }

    /// Creates a new media type.
    pub fn new(type_: Type, tree: Tree, subtype: &str) -> (r: MediaType)
        ensures
            r@ == plain(type_@, tree@, subtype@),
    {
        MediaType {
            type_: Some(type_),
            subtype: Some((tree, subtype.to_owned(), None)),
            parameters: Parameters::new(),
        }
    }

    /// Creates a new media type with suffix.
    pub fn new_with_suffix(type_: Type, tree: Tree, subtype: &str, suffix: &str) -> (r: MediaType)
        ensures
            r@ == (MediaTypeView {
                type_: Some(type_@),
                subtype: Some((tree@, subtype@, Some(suffix@))),
                parameters: Seq::empty(),
            }),
    {
        MediaType {
            type_: Some(type_),
            subtype: Some((tree, subtype.to_owned(), Some(suffix.to_owned()))),
            parameters: Parameters::new(),
        }
    }

    /// Accesses the tree component of the subtype.
    pub fn tree(&self) -> (r: Option<&Tree>)
        ensures
            match self@.subtype {
                Some((tree, _, _)) => r matches Some(found) && found@ == tree,
                None => r is None,
            },
    {
        match &self.subtype {
            Some(subtype) => Some(&subtype.0),
            None => None,
        }
    }

    /// Accesses the sub component of the subtype containing the resource type.
    pub fn sub(&self) -> (r: Option<&String>)
        ensures
            match self@.subtype {
                Some((_, name, _)) => r matches Some(found) && found@ == name,
                None => r is None,
            },
    {
        match &self.subtype {
            Some(subtype) => Some(&subtype.1),
            None => None,
        }
    }

    /// Accesses the suffix of the type.
    pub fn suffix(&self) -> (r: Option<&String>)
        ensures
            match suffix_of(self@) {
                Some(suffix) => r matches Some(found) && found@ == suffix,
                None => r is None,
            },
    {
        match &self.subtype {
            Some(subtype) => match &subtype.2 {
                Some(text) => Some(text),
                None => None,
            },
            None => None,
        }
    }

    /// The boundary parameter is used to separate different blocks of
    /// multipart resources.
    ///
    /// It is defined in RFC 2046, Multipurpose Internet Mail Extensions (MIME)
    /// Part Two: Media Types, section 5.1, Multipart Media Type.
    pub fn boundary(&self) -> (r: Result<&str, Error>)
        ensures
            match boundary_of(self@.parameters) {
                Ok(value) => r matches Ok(found) && found@ == value,
                Err(e) => r == Err::<&str, Error>(e),
            },
    {
        match self.parameters.get("boundary") {
            None => Err(Error::NotFound),
            Some(value) => {
                if !boundary(value.as_str()) {
                    return Err(Error::Invalid);
                }
                Ok(value.as_str())
            },
        }
    }

    /// The charset parameter is defined for `text/*` types; it carries
    /// information about the charset. Where the parameter is there, a charset
    /// is found for its value, whatever it is: a registered one or one of
    /// that name.
    ///
    /// The relevant RFCs are RFC 2046, section 4.1.2, Charset Parameter, and
    /// RFC 6657, Update to MIME regarding "charset" Parameter Handling in
    /// Textual Media Types.
    pub fn charset(&self) -> (r: Result<Charset, Error>)
        ensures
            r == charset_of(value_of(self@.parameters, "charset"@)),
            r is Ok <==> value_of(self@.parameters, "charset"@) is Some,
    {
        match self.parameters.get("charset") {
            None => Err(Error::NotFound),
            Some(name) => found_charset(lookup_charset(name.as_str())),
        }
    }

    /// Sets the charset parameter to the given charset and returns the old
    /// value if present.
    pub fn set_charset(&mut self, charset: Charset) -> (r: Option<String>)
        ensures
            final(self)@ == (MediaTypeView {
                parameters: put(old(self)@.parameters, "charset"@, charset_name(charset)),
                ..old(self)@
            }),
            match value_of(old(self)@.parameters, "charset"@) {
                Some(before) => r matches Some(found) && found@ == before,
                None => r is None,
            },
    {
        self.parameters.insert("charset".to_owned(), charset_text(&charset))
    }

    /// Sets the charset to UTF-8.
    pub fn set_charset_utf8(&mut self) -> (r: Option<String>)
        ensures
            final(self)@ == (MediaTypeView {
                parameters: put(old(self)@.parameters, "charset"@, "utf-8"@),
                ..old(self)@
            }),
            match value_of(old(self)@.parameters, "charset"@) {
                Some(before) => r matches Some(found) && found@ == before,
                None => r is None,
            },
    {
        self.set_charset(utf8_charset())
    }

    /// Compares the mime type portion (the media type without parameters) of
    /// two media types.
    pub fn eq_mime_portion(&self, other: &MediaType) -> (r: bool)
        ensures
            r == same_mime_portion(self@, other@),
    {
        let same_type = match (&self.type_, &other.type_) {
            (None, None) => true,
            (Some(a), Some(b)) => a == b,
            _ => false,
        };
        let same_subtype = match (&self.subtype, &other.subtype) {
            (None, None) => true,
            (Some(a), Some(b)) => a.0 == b.0 && text_equal(a.1.as_str(), b.1.as_str())
                && same_text(&a.2, &b.2),
            _ => false,
        };
        same_type && same_subtype
    }

    /// Returns true if the mime type portions differ, strict inverse of
    /// `eq_mime_portion()`.
    pub fn ne_mime_portion(&self, other: &MediaType) -> (r: bool)
        ensures
            r == !same_mime_portion(self@, other@),
    {
        !self.eq_mime_portion(other)
    }

    /// Checks if the media type is an image type.
    ///
    /// Implements the MIME Sniffing standard for MIME type groups.
    pub fn is_image_type(&self) -> (r: bool)
        ensures
            r == is_image(self@),
    {
        match &self.type_ {
            Some(Type::Image) => true,
            _ => false,
        }
    }

    /// Checks if the media type is an audio or video type.
    ///
    /// Implements the MIME Sniffing standard for MIME type groups.
    pub fn is_audio_or_video_type(&self) -> (r: bool)
        ensures
            r == is_audio_or_video(self@),
    {
        let by_type = match &self.type_ {
            Some(Type::Audio) => true,
            Some(Type::Video) => true,
            _ => false,
        };
        by_type || MediaType::new(Type::Application, Tree::Standards, "ogg").eq_mime_portion(self)
    }

    /// Checks if the media type is a font type.
    ///
    /// Implements the MIME Sniffing standard for MIME type groups.
    pub fn is_font_type(&self) -> (r: bool)
        ensures
            r == is_font(self@),
    {
        MediaType::new(Type::Application, Tree::Standards, "font-ttf").eq_mime_portion(self)
            || MediaType::new(Type::Application, Tree::Standards, "font-cff").eq_mime_portion(self)
            || MediaType::new(Type::Application, Tree::Standards, "font-off").eq_mime_portion(self)
            || MediaType::new(Type::Application, Tree::Standards, "font-sfnt").eq_mime_portion(self)
            || MediaType::new(Type::Application, Tree::Vendor, "ms-opentype").eq_mime_portion(self)
            || MediaType::new(Type::Application, Tree::Standards, "font-woff").eq_mime_portion(self)
            || MediaType::new(Type::Application, Tree::Vendor, "ms-fontobject").eq_mime_portion(
            self,
        )
    }

    /// Checks if the media type is a zip based type.
    ///
    /// Implements the MIME Sniffing standard for MIME type groups.
    pub fn is_zip_based_type(&self) -> (r: bool)
        ensures
            r == is_zip_based(self@),
    {
        let by_suffix = match self.suffix() {
            Some(suffix) => text_equal(suffix.as_str(), "zip"),
            None => false,
        };
        by_suffix || MediaType::new(Type::Application, Tree::Standards, "zip").eq_mime_portion(self)
    }

    /// Checks if the media type is an archive type.
    ///
    /// Implements the MIME Sniffing standard for MIME type groups.
    pub fn is_archive_type(&self) -> (r: bool)
        ensures
            r == is_archive(self@),
    {
        MediaType::new(Type::Application, Tree::Standards, "x-rar-compressed").eq_mime_portion(self)
            || MediaType::new(Type::Application, Tree::Standards, "zip").eq_mime_portion(self)
            || MediaType::new(Type::Application, Tree::Standards, "x-gzip").eq_mime_portion(self)
    }

    /// Checks if the media type is an XML type.
    ///
    /// Implements the MIME Sniffing standard for MIME type groups.
    pub fn is_xml_type(&self) -> (r: bool)
        ensures
            r == is_xml(self@),
    {
        let by_suffix = match self.suffix() {
            Some(suffix) => text_equal(suffix.as_str(), "xml"),
            None => false,
        };
        by_suffix || MediaType::new(Type::Text, Tree::Standards, "xml").eq_mime_portion(self)
            || MediaType::new(Type::Application, Tree::Standards, "xml").eq_mime_portion(self)
    }

    /// Checks if the media type is a scriptable type, HTML or PDF.
    ///
    /// Implements the MIME Sniffing standard for MIME type groups.
    pub fn is_scriptable_mime_type(&self) -> (r: bool)
        ensures
            r == is_scriptable(self@),
    {
        MediaType::new(Type::Text, Tree::Standards, "html").eq_mime_portion(self)
            || MediaType::new(Type::Application, Tree::Standards, "pdf").eq_mime_portion(self)
    }
}

impl PartialEq for MediaType {
    /// Tests whether both have the same mime type portion and the same
    /// parameters.
    fn eq(&self, other: &MediaType) -> (r: bool) {
        self.eq_mime_portion(other) && self.parameters == other.parameters
    }
}

impl vstd::std_specs::cmp::PartialEqSpecImpl for MediaType {
    open spec fn obeys_eq_spec() -> bool {
        true
    }

    open spec fn eq_spec(&self, other: &MediaType) -> bool {
        self@ == other@
    }
}

impl Eq for MediaType {

}

impl Default for MediaType {
    /// The wildcard media type `*/*`.
    fn default() -> (r: MediaType)
        ensures
            r@ == (MediaTypeView { type_: None, subtype: None, parameters: Seq::empty() }),
    {
        MediaType::wildcard()
    }
}

} // verus!
