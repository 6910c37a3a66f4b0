use vstd::prelude::*;

verus! {

/// Status of a translation (its progress).
#[derive(Debug, Clone, Copy, PartialEq, Eq, Structural)]
pub enum TranslationType {
    /// Translation is completed; also what an absent status means.
    Finished,
    /// Translation is not finished.
    Unfinished,
    /// Translation requires an update.
    Obsolete,
    /// Translation is not used anymore.
    Vanished,
}

impl Default for TranslationType {
    fn default() -> (r: TranslationType)
        ensures
            r == TranslationType::Finished,
    {
        TranslationType::Finished
    }
}

/// A yes/no attribute of the catalog format.
#[derive(Debug, Clone, Copy, PartialEq, Eq, Structural)]
pub enum YesNo {
    Yes,
    No,
}

/// The text held by an optional string, if any.
pub open spec fn text_of(s: Option<String>) -> Option<Seq<char>> {
    match s {
        Some(t) => Some(t@),
        None => None,
    }
}

/// Root node of a translation catalog.
#[derive(Debug, Clone, PartialEq)]
pub struct TSNode {
    /// Version of the catalog format.
    pub version: Option<String>,
    /// Language the sources are written in.
    pub source_language: Option<String>,
    /// Language of the translations.
    pub language: Option<String>,
    /// Translations grouped by context.
    pub contexts: Vec<ContextNode>,
    /// Messages that belong to no context.
    pub messages: Vec<MessageNode>,
    pub dependencies: Option<DependenciesNode>,
    pub comment: Option<String>,
    pub old_comment: Option<String>,
    pub extra_comment: Option<String>,
    pub translator_comment: Option<String>,
    pub po_msg_id_plural: Option<String>,
    pub po_old_msg_id_plural: Option<String>,
    /// Comma separated list.
    pub loc_flags: Option<String>,
    pub loc_layout_id: Option<String>,
    pub loc_feature: Option<String>,
    pub loc_blank: Option<String>,
}

/// A named group of messages.
#[derive(Debug, Clone, PartialEq, Eq)]
pub struct ContextNode {
    /// Name of the context; the key by which contexts are matched.
    pub name: String,
    /// Messages of the context, in order.
    pub messages: Vec<MessageNode>,
    pub comment: Option<String>,
    /// Encoding of the messages of the context.
    pub encoding: Option<String>,
}

#[derive(Debug, Clone, PartialEq)]
pub struct DependenciesNode {
    pub dependencies: Vec<Dependency>,
}

#[derive(Debug, Clone, PartialEq)]
pub struct Dependency {
    pub catalog: String,
}

/// One translatable unit.
#[derive(Debug, Clone, PartialEq, Eq)]
pub struct MessageNode {
    /// Text to translate.
    pub source: Option<String>,
    /// Source text that a merge replaced.
    pub old_source: Option<String>,
    /// Translation into the target language.
    pub translation: Option<TranslationNode>,
    /// Places where the source text is used.
    pub locations: Vec<LocationNode>,
    /// Disambiguation of the source text.
    pub comment: Option<String>,
    /// Comment that a merge replaced.
    pub old_comment: Option<String>,
    /// Comment of the developer.
    pub extra_comment: Option<String>,
    /// Comment of the translator.
    pub translator_comment: Option<String>,
    /// Whether the message has plural forms.
    pub numerus: Option<YesNo>,
    /// Stable identifier, when the message has one.
    pub id: Option<String>,
    pub userdata: Option<String>,
    pub po_msg_id_plural: Option<String>,
    pub po_old_msg_id_plural: Option<String>,
    /// Comma separated list.
    pub loc_flags: Option<String>,
    pub loc_layout_id: Option<String>,
    pub loc_feature: Option<String>,
    pub loc_blank: Option<String>,
}

/// The translation of a message: a single text, or one text per plural form.
#[derive(Debug, Clone, PartialEq, Eq)]
pub struct TranslationNode {
    /// Translation without plural forms.
    pub translation_simple: Option<String>,
    /// Translations for the plural forms.
    pub numerus_forms: Vec<NumerusFormNode>,
    /// Status of the translation; absent means finished.
    pub translation_type: Option<TranslationType>,
    pub variants: Option<YesNo>,
    pub userdata: Option<String>,
}

/// Where a source text is used.
#[derive(Debug, Clone, PartialEq, Eq)]
pub struct LocationNode {
    /// File the source text comes from.
    pub filename: Option<String>,
    /// Line of the source text in that file.
    pub line: Option<u32>,
}

/// One plural form of a translation.
#[derive(Debug, Clone, PartialEq, Eq)]
pub struct NumerusFormNode {
    pub text: String,
    pub variants: Option<YesNo>,
}

/// Value of a translation, with its sequence of plural forms.
pub struct TranslationView {
    pub translation_simple: Option<String>,
    pub numerus_forms: Seq<NumerusFormNode>,
    pub translation_type: Option<TranslationType>,
    pub variants: Option<YesNo>,
    pub userdata: Option<String>,
}

/// Value of a message, with its sequences as `Seq`.
pub struct MessageView {
    pub source: Option<String>,
    pub old_source: Option<String>,
    pub translation: Option<TranslationView>,
    pub locations: Seq<LocationNode>,
    pub comment: Option<String>,
    pub old_comment: Option<String>,
    pub extra_comment: Option<String>,
    pub translator_comment: Option<String>,
    pub numerus: Option<YesNo>,
    pub id: Option<String>,
    pub userdata: Option<String>,
    pub po_msg_id_plural: Option<String>,
    pub po_old_msg_id_plural: Option<String>,
    pub loc_flags: Option<String>,
    pub loc_layout_id: Option<String>,
    pub loc_feature: Option<String>,
    pub loc_blank: Option<String>,
}

/// Value of a context.
pub struct ContextView {
    pub name: String,
    pub messages: Seq<MessageView>,
    pub comment: Option<String>,
    pub encoding: Option<String>,
}

/// Value of a whole catalog.
pub struct TSView {
    pub version: Option<String>,
    pub source_language: Option<String>,
    pub language: Option<String>,
    pub contexts: Seq<ContextView>,
    pub messages: Seq<MessageView>,
    pub dependencies: Option<Seq<Dependency>>,
    pub comment: Option<String>,
    pub old_comment: Option<String>,
    pub extra_comment: Option<String>,
    pub translator_comment: Option<String>,
    pub po_msg_id_plural: Option<String>,
    pub po_old_msg_id_plural: Option<String>,
    pub loc_flags: Option<String>,
    pub loc_layout_id: Option<String>,
    pub loc_feature: Option<String>,
    pub loc_blank: Option<String>,
}

impl View for TranslationNode {
    type V = TranslationView;

    open spec fn view(&self) -> TranslationView {
        TranslationView {
            translation_simple: self.translation_simple,
            numerus_forms: self.numerus_forms@,
            translation_type: self.translation_type,
            variants: self.variants,
            userdata: self.userdata,
        }
    }
}

impl TranslationView {
    /// A translation holds either a single text or plural forms, never both and never neither.
    pub open spec fn wf(&self) -> bool {
        self.translation_simple is Some <==> self.numerus_forms.len() == 0
    }
}

impl MessageView {
    /// The message's translation, if any, is well formed.
    pub open spec fn wf(&self) -> bool {
        match self.translation {
            Some(t) => t.wf(),
            None => true,
        }
    }
}

/// Value of an optional translation.
pub open spec fn translation_view(t: Option<TranslationNode>) -> Option<TranslationView> {
    match t {
        Some(t) => Some(t@),
        None => None,
    }
}

impl View for MessageNode {
    type V = MessageView;

    open spec fn view(&self) -> MessageView {
        MessageView {
            source: self.source,
            old_source: self.old_source,
            translation: translation_view(self.translation),
            locations: self.locations@,
            comment: self.comment,
            old_comment: self.old_comment,
            extra_comment: self.extra_comment,
            translator_comment: self.translator_comment,
            numerus: self.numerus,
            id: self.id,
            userdata: self.userdata,
            po_msg_id_plural: self.po_msg_id_plural,
            po_old_msg_id_plural: self.po_old_msg_id_plural,
            loc_flags: self.loc_flags,
            loc_layout_id: self.loc_layout_id,
            loc_feature: self.loc_feature,
            loc_blank: self.loc_blank,
        }
    }
}

/// Values of a list of messages.
pub open spec fn messages_view(ms: Seq<MessageNode>) -> Seq<MessageView> {
    ms.map_values(|m: MessageNode| m@)
}

impl View for ContextNode {
    type V = ContextView;

    open spec fn view(&self) -> ContextView {
        ContextView {
            name: self.name,
            messages: messages_view(self.messages@),
            comment: self.comment,
            encoding: self.encoding,
        }
    }
}

/// Values of a list of contexts.
pub open spec fn contexts_view(cs: Seq<ContextNode>) -> Seq<ContextView> {
    cs.map_values(|c: ContextNode| c@)
}

/// Value of optional dependencies.
pub open spec fn dependencies_view(d: Option<DependenciesNode>) -> Option<Seq<Dependency>> {
    match d {
        Some(d) => Some(d.dependencies@),
        None => None,
    }
}

impl View for TSNode {
    type V = TSView;

    open spec fn view(&self) -> TSView {
        TSView {
            version: self.version,
            source_language: self.source_language,
            language: self.language,
            contexts: contexts_view(self.contexts@),
            messages: messages_view(self.messages@),
            dependencies: dependencies_view(self.dependencies),
            comment: self.comment,
            old_comment: self.old_comment,
            extra_comment: self.extra_comment,
            translator_comment: self.translator_comment,
            po_msg_id_plural: self.po_msg_id_plural,
            po_old_msg_id_plural: self.po_old_msg_id_plural,
            loc_flags: self.loc_flags,
            loc_layout_id: self.loc_layout_id,
            loc_feature: self.loc_feature,
            loc_blank: self.loc_blank,
        }
    }
}

/// Whether two optional strings hold the same text.
pub fn same_text(a: &Option<String>, b: &Option<String>) -> (r: bool)
    ensures
        r == (text_of(*a) == text_of(*b)),
{
    match (a, b) {
        (Some(x), Some(y)) => x.eq(y),
        (None, None) => true,
        _ => false,
    }
}

/// An exact copy of an optional string.
pub fn copy_text(s: &Option<String>) -> (r: Option<String>)
    ensures
        r == *s,
{
    match s {
        Some(t) => Some(t.clone()),
        None => None,
    }
}

impl LocationNode {
    /// An exact copy of this location.
    pub fn duplicate(&self) -> (r: LocationNode)
        ensures
            r == *self,
    {
        LocationNode { filename: copy_text(&self.filename), line: self.line }
    }
}

impl NumerusFormNode {
    /// An exact copy of this plural form.
    pub fn duplicate(&self) -> (r: NumerusFormNode)
        ensures
            r == *self,
    {
        NumerusFormNode { text: self.text.clone(), variants: self.variants }
    }
}

/// A copy of a list of locations, element for element.
pub fn copy_locations(v: &Vec<LocationNode>) -> (r: Vec<LocationNode>)
    ensures
        r@ == v@,
{
    let mut r: Vec<LocationNode> = Vec::new();
    let mut i: usize = 0;
    while i < v.len()
        invariant
            i <= v@.len(),
            r@ == v@.take(i as int),
        decreases v@.len() - i,
    {
        r.push(v[i].duplicate());
        i = i + 1;
        assert(r@ =~= v@.take(i as int));
    }
    assert(v@.take(v@.len() as int) =~= v@);
    r
}

impl TranslationNode {
    /// A copy of this translation with the same value.
    pub fn duplicate(&self) -> (r: TranslationNode)
        ensures
            r@ == self@,
    {
        let mut forms: Vec<NumerusFormNode> = Vec::new();
        let mut i: usize = 0;
        while i < self.numerus_forms.len()
            invariant
                i <= self.numerus_forms@.len(),
                forms@ == self.numerus_forms@.take(i as int),
            decreases self.numerus_forms@.len() - i,
        {
            forms.push(self.numerus_forms[i].duplicate());
            i = i + 1;
            assert(forms@ =~= self.numerus_forms@.take(i as int));
        }
        assert(self.numerus_forms@.take(self.numerus_forms@.len() as int) =~= self.numerus_forms@);
        TranslationNode {
            translation_simple: copy_text(&self.translation_simple),
            numerus_forms: forms,
            translation_type: self.translation_type,
            variants: self.variants,
            userdata: copy_text(&self.userdata),
        }
    }
}

/// A copy of an optional translation with the same value.
pub fn copy_translation(t: &Option<TranslationNode>) -> (r: Option<TranslationNode>)
    ensures
        translation_view(r) == translation_view(*t),
{
    match t {
        Some(t) => Some(t.duplicate()),
        None => None,
    }
}

} // verus!
