//! An open document, and what an editor can ask about it.

use crate::autocomplete::prefix;
use crate::autocomplete::properties;
use crate::autocomplete::properties::{
    enum_name_completions, enum_variant_completions, property_completions,
};
use crate::autocomplete::values;
use crate::autocomplete::values::{value_completions, Palette, PaletteView};
use crate::completion;
use crate::completion::{CompletionItem, CompletionItemKind, CompletionItemView};
use crate::reflection::{Reflection, ReflectionView};
use crate::strings::{join2, join3, str_eq};
use crate::text;
use crate::text::{rope_from_str, Position, Range};
use crate::typechecker::definitions;
use crate::typechecker::definitions::{DefinitionKind, DefinitionView, Definitions};
use crate::typechecker::type_error;
use crate::typechecker::type_error::quoted;
use vstd::prelude::*;

verus! {

/// What is known of the type of a value.
#[derive(Debug)]
pub enum ResolvedType {
    /// An item of an enum that is not named; the name of what it is assigned to stands in.
    EnumShorthand,
    /// An item of the named enum.
    EnumItem(String),
    /// Another type.
    Other(String),
}

/// What a [`ResolvedType`] holds.
pub enum ResolvedTypeView {
    EnumShorthand,
    EnumItem(Seq<char>),
    Other(Seq<char>),
}

impl DeepView for ResolvedType {
    type V = ResolvedTypeView;

    open spec fn deep_view(&self) -> ResolvedTypeView {
        match self {
            ResolvedType::EnumShorthand => ResolvedTypeView::EnumShorthand,
            ResolvedType::EnumItem(name) => ResolvedTypeView::EnumItem(name@),
            ResolvedType::Other(name) => ResolvedTypeView::Other(name@),
        }
    }
}

/// The types of the tokens and of the properties of a document.
#[derive(Debug)]
pub struct ResolvedTypes {
    /// Tokens, by their names and by whether they are static.
    pub tokens: Vec<(String, bool, ResolvedType)>,
    /// Properties, by the first bytes of their assignments.
    pub properties: Vec<(usize, ResolvedType)>,
}

/// What [`ResolvedTypes`] hold.
pub struct ResolvedTypesView {
    pub tokens: Seq<(Seq<char>, bool, ResolvedTypeView)>,
    pub properties: Seq<(usize, ResolvedTypeView)>,
}

impl DeepView for ResolvedTypes {
    type V = ResolvedTypesView;

    open spec fn deep_view(&self) -> ResolvedTypesView {
        ResolvedTypesView {
            tokens: self.tokens.deep_view(),
            properties: self.properties.deep_view(),
        }
    }
}

/// The type of the first token with the given name.
pub open spec fn token_type(
    tokens: Seq<(Seq<char>, bool, ResolvedTypeView)>,
    name: Seq<char>,
    is_static: bool,
) -> Option<ResolvedTypeView>
    decreases tokens.len(),
{
    if tokens.len() == 0 {
        None
    } else if tokens[0].0 == name && tokens[0].1 == is_static {
        Some(tokens[0].2)
    } else {
        token_type(tokens.drop_first(), name, is_static)
    }
}

/// The type of the first property whose assignment starts at the given byte.
pub open spec fn property_type(properties: Seq<(usize, ResolvedTypeView)>, start: usize) -> Option<
    ResolvedTypeView,
>
    decreases properties.len(),
{
    if properties.len() == 0 {
        None
    } else if properties[0].0 == start {
        Some(properties[0].1)
    } else {
        property_type(properties.drop_first(), start)
    }
}

/// A type, as it is shown of something with the given name.
pub open spec fn type_text(resolved: ResolvedTypeView, name: Seq<char>) -> Seq<char> {
    match resolved {
        ResolvedTypeView::EnumShorthand => "Enum."@ + name,
        ResolvedTypeView::EnumItem(enum_name) => "Enum."@ + enum_name,
        ResolvedTypeView::Other(text) => text,
    }
}

/// What is shown of a token: its name, and its type where it is known.
pub open spec fn token_hint(name: Seq<char>, is_static: bool, types: ResolvedTypesView) -> Seq<char> {
    (if is_static {
        "$!"@
    } else {
        "$"@
    }) + name + ": "@ + (match token_type(types.tokens, name, is_static) {
        Some(resolved) => type_text(resolved, name),
        None => "unknown"@,
    })
}

/// A text in a block of code.
pub open spec fn code_block(text: Seq<char>) -> Seq<char> {
    "```luau\n"@ + text + "\n```"@
}

/// What is shown of a definition whose stretch starts at `start`.
pub open spec fn hover_contents(kind: DefinitionView, start: usize, types: ResolvedTypesView) -> Option<
    Seq<char>,
> {
    match kind {
        DefinitionView::Derive { path } => Some(code_block(type_error::quoted_text(path))),
        DefinitionView::Selector { hint, .. } => Some(code_block(hint)),
        DefinitionView::Token { name, is_static } => Some(
            code_block(token_hint(name, is_static, types)),
        ),
        DefinitionView::Assignment { property_name, .. } => match property_type(
            types.properties,
            start,
        ) {
            Some(resolved) => Some(
                code_block(property_name + ": "@ + type_text(resolved, property_name)),
            ),
            None => None,
        },
        _ => None,
    }
}

fn resolved_type_text(resolved: &ResolvedType, name: &str) -> (r: String)
    ensures
        r@ == type_text(resolved.deep_view(), name@),
{
    match resolved {
        ResolvedType::EnumShorthand => join2("Enum.", name),
        ResolvedType::EnumItem(enum_name) => join2("Enum.", enum_name.as_str()),
        ResolvedType::Other(text) => text.clone(),
    }
}

proof fn lemma_token_skips(
    tokens: Seq<(Seq<char>, bool, ResolvedTypeView)>,
    name: Seq<char>,
    is_static: bool,
    n: int,
)
    requires
        0 <= n <= tokens.len(),
        forall|j: int|
            0 <= j < n ==> (#[trigger] tokens[j]).0 != name || tokens[j].1 != is_static,
    ensures
        token_type(tokens, name, is_static) == token_type(tokens.skip(n), name, is_static),
    decreases n,
{
    if n == 0 {
        assert(tokens.skip(0) =~= tokens);
    } else {
        assert forall|j: int| 0 <= j < n - 1 implies (
        #[trigger] tokens.drop_first()[j]).0 != name || tokens.drop_first()[j].1 != is_static by {
            assert(tokens[j + 1].0 != name || tokens[j + 1].1 != is_static);
        }
        assert(tokens[0].0 != name || tokens[0].1 != is_static);
        lemma_token_skips(tokens.drop_first(), name, is_static, n - 1);
        assert(tokens.drop_first().skip(n - 1) =~= tokens.skip(n));
    }
}

proof fn lemma_property_skips(properties: Seq<(usize, ResolvedTypeView)>, start: usize, n: int)
    requires
        0 <= n <= properties.len(),
        forall|j: int| 0 <= j < n ==> (#[trigger] properties[j]).0 != start,
    ensures
        property_type(properties, start) == property_type(properties.skip(n), start),
    decreases n,
{
    if n == 0 {
        assert(properties.skip(0) =~= properties);
    } else {
        assert forall|j: int| 0 <= j < n - 1 implies (
        #[trigger] properties.drop_first()[j]).0 != start by {
            assert(properties[j + 1].0 != start);
        }
        assert(properties[0].0 != start);
        lemma_property_skips(properties.drop_first(), start, n - 1);
        assert(properties.drop_first().skip(n - 1) =~= properties.skip(n));
    }
}

impl ResolvedTypes {
    pub fn new() -> (r: Self)
        ensures
            r.deep_view().tokens == Seq::<(Seq<char>, bool, ResolvedTypeView)>::empty(),
            r.deep_view().properties == Seq::<(usize, ResolvedTypeView)>::empty(),
    {
        let r = ResolvedTypes { tokens: Vec::new(), properties: Vec::new() };
        assert(r.deep_view().tokens =~= Seq::empty());
        assert(r.deep_view().properties =~= Seq::empty());
        r
    }

    /// The type of a token.
    pub fn token(&self, name: &str, is_static: bool) -> (r: Option<&ResolvedType>)
        ensures
            r.deep_view() == token_type(self.deep_view().tokens, name@, is_static),
    {
        let ghost views = self.deep_view().tokens;
        let mut i: usize = 0;
        while i < self.tokens.len()
            invariant
                i <= self.tokens@.len(),
                views == self.deep_view().tokens,
                forall|j: int|
                    0 <= j < i ==> (#[trigger] views[j]).0 != name@ || views[j].1 != is_static,
            decreases self.tokens@.len() - i,
        {
            let (token_name, token_is_static, resolved) = &self.tokens[i];
            assert(views[i as int] == (token_name@, *token_is_static, resolved.deep_view()));
            if str_eq(token_name.as_str(), name) && *token_is_static == is_static {
                proof {
                    lemma_token_skips(views, name@, is_static, i as int);
                    assert(views.skip(i as int)[0] == views[i as int]);
                }
                return Some(resolved);
            }
            i += 1;
        }
        proof {
            lemma_token_skips(views, name@, is_static, i as int);
        }
        None
    }

    /// The type of the property whose assignment starts at the given byte.
    pub fn property(&self, start: usize) -> (r: Option<&ResolvedType>)
        ensures
            r.deep_view() == property_type(self.deep_view().properties, start),
    {
        let ghost views = self.deep_view().properties;
        let mut i: usize = 0;
        while i < self.properties.len()
            invariant
                i <= self.properties@.len(),
                views == self.deep_view().properties,
                forall|j: int| 0 <= j < i ==> (#[trigger] views[j]).0 != start,
            decreases self.properties@.len() - i,
        {
            let (property_start, resolved) = &self.properties[i];
            assert(views[i as int] == (*property_start, resolved.deep_view()));
            if *property_start == start {
                proof {
                    lemma_property_skips(views, start, i as int);
                    assert(views.skip(i as int)[0] == views[i as int]);
                }
                return Some(resolved);
            }
            i += 1;
        }
        proof {
            lemma_property_skips(views, start, i as int);
        }
        None
    }
}

/// What is shown of a token.
pub fn format_token_hint(name: &str, is_static: bool, resolved_types: &ResolvedTypes) -> (r: String)
    ensures
        r@ == token_hint(name@, is_static, resolved_types.deep_view()),
{
    let sigil = if is_static {
        "$!"
    } else {
        "$"
    };
    let mut hint = join3(sigil, name, ": ");
    match resolved_types.token(name, is_static) {
        Some(resolved) => {
            hint.append(resolved_type_text(resolved, name).as_str());
        },
        None => {
            hint.append("unknown");
        },
    }
    hint
}

fn hover_text(kind: &DefinitionKind, start: usize, resolved_types: &ResolvedTypes) -> (r: Option<
    String,
>)
    ensures
        r.deep_view() == hover_contents(kind.deep_view(), start, resolved_types.deep_view()),
{
    let text = match kind {
        DefinitionKind::Derive { path } => quoted(path.as_str()),
        DefinitionKind::Selector { hint, .. } => hint.clone(),
        DefinitionKind::Token { name, is_static } => format_token_hint(
            name.as_str(),
            *is_static,
            resolved_types,
        ),
        DefinitionKind::Assignment { property_name, .. } => match resolved_types.property(start) {
            Some(resolved) => join3(
                property_name.as_str(),
                ": ",
                resolved_type_text(resolved, property_name.as_str()).as_str(),
            ),
            None => return None,
        },
        _ => return None,
    };
    Some(join3("```luau\n", text.as_str(), "\n```"))
}

/// A document, with what is known of it.
pub struct Document {
    pub source: String,
    /// The paths of the documents that it derives from.
    pub dependencies: Vec<String>,
    pub definitions: Definitions,
    pub resolved_types: ResolvedTypes,
}

/// What is shown where the pointer rests, and the stretch that it is about.
#[derive(Debug)]
pub struct Hover {
    pub contents: String,
    pub range: Range,
}

/// The file that a string leads to, and where the string stands.
#[derive(Debug)]
pub struct Link {
    pub origin: Range,
    pub path: String,
}

/// The longest stretch of the definition of a byte.
pub open spec fn run_of(document: Map<usize, DefinitionView>, byte: usize) -> (usize, usize) {
    choose|run: (usize, usize)| definitions::is_run(document, byte, run.0, run.1)
}

/// The range of the definition of a byte.
pub open spec fn range_at(source: Seq<char>, document: Map<usize, DefinitionView>, byte: usize) -> Range {
    let run = run_of(document, byte);
    text::range_of(source, (run.0 as int, run.1 as int))
}

/// What is shown at a byte.
pub open spec fn hover_at(
    document: Map<usize, DefinitionView>,
    byte: usize,
    types: ResolvedTypesView,
) -> Option<Seq<char>> {
    if document.dom().contains(byte) {
        hover_contents(document[byte], run_of(document, byte).0, types)
    } else {
        None
    }
}

/// The file that a byte leads to.
pub open spec fn link_at(document: Map<usize, DefinitionView>, byte: usize) -> Option<Seq<char>> {
    if document.dom().contains(byte) {
        match document[byte] {
            DefinitionView::Derive { path } => Some(path),
            _ => None,
        }
    } else {
        None
    }
}

/// The completions of a definition.
pub open spec fn completions_of(
    kind: DefinitionView,
    source: Seq<char>,
    byte: usize,
    db: ReflectionView,
    palette: PaletteView,
) -> Option<Seq<CompletionItemView>> {
    match kind {
        DefinitionView::Scope { type_definition } => Some(
            properties::property_items(db, type_definition),
        ),
        DefinitionView::Assignment { property_name, type_definition } => Some(
            values::value_items(
                prefix::value_prefix(source, text::char_of_byte(source, byte as int) as int),
                type_definition,
                property_name,
                db,
                palette,
            ),
        ),
        DefinitionView::EnumName => Some(properties::enum_name_items(db)),
        DefinitionView::FilteredEnumName { enum_name } => Some(
            seq![completion::plain_item(enum_name, CompletionItemKind::Enum)],
        ),
        DefinitionView::EnumVariant { enum_name } => Some(
            properties::enum_variant_items(db, enum_name),
        ),
        _ => None,
    }
}

/// The completions at a byte.
pub open spec fn completions_at(
    document: Map<usize, DefinitionView>,
    source: Seq<char>,
    byte: usize,
    db: ReflectionView,
    palette: PaletteView,
) -> Option<Seq<CompletionItemView>> {
    if document.dom().contains(byte) {
        completions_of(document[byte], source, byte, db, palette)
    } else {
        None
    }
}

impl Document {
    /// The byte at a position.
    pub open spec fn byte_at(self, position: Position) -> usize {
        text::offset_of(self.source@, position) as usize
    }

    /// A document of which nothing is known but its text.
    pub fn new(source: String) -> (r: Self)
        ensures
            r.source@ == source@,
            r.dependencies@.len() == 0,
            r.definitions@ == Map::<usize, DefinitionView>::empty(),
            r.resolved_types.deep_view().tokens.len() == 0,
            r.resolved_types.deep_view().properties.len() == 0,
    {
        Document {
            source,
            dependencies: Vec::new(),
            definitions: Definitions::new(),
            resolved_types: ResolvedTypes::new(),
        }
    }

    /// What is shown where the pointer rests at a position.
    pub fn hover(&self, position: Position) -> (r: Option<Hover>)
        ensures
            match r {
                Some(hover) => hover_at(
                    self.definitions@,
                    self.byte_at(position),
                    self.resolved_types.deep_view(),
                ) == Some(hover.contents@) && hover.range == range_at(
                    self.source@,
                    self.definitions@,
                    self.byte_at(position),
                ),
                None => hover_at(
                    self.definitions@,
                    self.byte_at(position),
                    self.resolved_types.deep_view(),
                ) is None,
            },
    {
        let byte: usize = position.byte_offset(self.source.as_str());
        match self.definitions.get_key_value(byte) {
            Some((start, end, kind)) => {
                proof {
                    lemma_run_of(self.definitions@, byte, start, end);
                }
                match hover_text(kind, start, &self.resolved_types) {
                    Some(contents) => {
                        let rope = rope_from_str(self.source.as_str());
                        Some(Hover { contents, range: Range::from_span(&rope, (start, end)) })
                    },
                    None => None,
                }
            },
            None => None,
        }
    }

    /// Where a position leads to.
    pub fn goto_definition(&self, position: Position) -> (r: Option<Link>)
        ensures
            match r {
                Some(link) => link_at(self.definitions@, self.byte_at(position)) == Some(
                    link.path@,
                ) && link.origin == range_at(
                    self.source@,
                    self.definitions@,
                    self.byte_at(position),
                ),
                None => link_at(self.definitions@, self.byte_at(position)) is None,
            },
    {
        let byte: usize = position.byte_offset(self.source.as_str());
        match self.definitions.get_key_value(byte) {
            Some((start, end, DefinitionKind::Derive { path })) => {
                proof {
                    lemma_run_of(self.definitions@, byte, start, end);
                }
                let rope = rope_from_str(self.source.as_str());
                Some(Link { origin: Range::from_span(&rope, (start, end)), path: path.clone() })
            },
            _ => None,
        }
    }

    /// The completions at a position, by the classes and enums of `db`.
    pub fn completion_in(&self, position: Position, palette: &Palette, db: &Reflection) -> (r: Option<
        Vec<CompletionItem>,
    >)
        ensures
            r.deep_view() == completions_at(
                self.definitions@,
                self.source@,
                self.byte_at(position),
                db.deep_view(),
                palette.deep_view(),
            ),
    {
        let byte: usize = position.byte_offset(self.source.as_str());
        match self.definitions.get(byte) {
            Some(DefinitionKind::Scope { type_definition }) => Some(
                property_completions(type_definition, db),
            ),
            Some(DefinitionKind::Assignment { property_name, type_definition }) => Some(
                value_completions(
                    self.source.as_str(),
                    byte,
                    type_definition,
                    property_name.as_str(),
                    db,
                    palette,
                ),
            ),
            Some(DefinitionKind::EnumName) => Some(enum_name_completions(db)),
            Some(DefinitionKind::FilteredEnumName { enum_name }) => {
                let mut items: Vec<CompletionItem> = Vec::new();
                items.push(CompletionItem::plain(enum_name.as_str(), CompletionItemKind::Enum));
                assert(items.deep_view() =~= seq![
                    completion::plain_item(enum_name@, CompletionItemKind::Enum),
                ]);
                Some(items)
            },
            Some(DefinitionKind::EnumVariant { enum_name }) => Some(
                enum_variant_completions(enum_name.as_str(), db),
            ),
            _ => None,
        }
    }

    /// The completions at a position, by the classes and enums that the machine has.
    pub fn completion(&self, position: Position, palette: &Palette) -> (r: Option<
        Vec<CompletionItem>,
    >)
        ensures
            exists|db: ReflectionView|
                db.is_keyed() && r.deep_view() == #[trigger] completions_at(
                    self.definitions@,
                    self.source@,
                    self.byte_at(position),
                    db,
                    palette.deep_view(),
                ),
    {
        let db = Reflection::load_or_empty();
        self.completion_in(position, palette, &db)
    }
}

proof fn lemma_run_of(document: Map<usize, DefinitionView>, byte: usize, start: usize, end: usize)
    requires
        definitions::is_run(document, byte, start, end),
    ensures
        run_of(document, byte) == (start, end),
{
    let witness = (start, end);
    assert(definitions::is_run(document, byte, witness.0, witness.1));
    let run = run_of(document, byte);
    definitions::lemma_run_is_unique(document, byte, start, end, run.0, run.1);
}

} // verus!
