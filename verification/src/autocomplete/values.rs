//! The completions of a property's value.

use super::lookup;
use super::lookup::{enum_name_in, lookup_descriptor};
use super::prefix;
use super::prefix::{scan_value_prefix, PrefixView, ValuePrefix};
use crate::completion;
use crate::completion::{
    Command, CommandView, CompletionItem, CompletionItemKind, CompletionItemView, InsertTextFormat,
};
use crate::reflection::{PropertyType, PropertyTypeView, Reflection, ReflectionView};
use crate::strings;
use crate::strings::{decimal_text, is_one_of, join2, join3, str_eq};
use crate::text;
use crate::typechecker::definitions;
use vstd::prelude::*;

verus! {

/// The names of the colours that can be completed.
#[derive(Debug)]
pub struct Palette {
    pub tailwind_families: Vec<String>,
    /// The families that have shades, each with its shades.
    pub tailwind_shades: Vec<(String, Vec<String>)>,
    pub skin_families: Vec<String>,
    /// The families that have shades, each with its shades.
    pub skin_shades: Vec<(String, Vec<String>)>,
    pub brick_names: Vec<String>,
    pub css_names: Vec<String>,
}

/// What a [`Palette`] holds.
pub struct PaletteView {
    pub tailwind_families: Seq<Seq<char>>,
    pub tailwind_shades: Seq<(Seq<char>, Seq<Seq<char>>)>,
    pub skin_families: Seq<Seq<char>>,
    pub skin_shades: Seq<(Seq<char>, Seq<Seq<char>>)>,
    pub brick_names: Seq<Seq<char>>,
    pub css_names: Seq<Seq<char>>,
}

impl DeepView for Palette {
    type V = PaletteView;

    open spec fn deep_view(&self) -> PaletteView {
        PaletteView {
            tailwind_families: self.tailwind_families.deep_view(),
            tailwind_shades: self.tailwind_shades.deep_view(),
            skin_families: self.skin_families.deep_view(),
            skin_shades: self.skin_shades.deep_view(),
            brick_names: self.brick_names.deep_view(),
            css_names: self.css_names.deep_view(),
        }
    }
}

/// The shades of a family; none where it has none.
pub open spec fn shades_of(shades: Seq<(Seq<char>, Seq<Seq<char>>)>, family: Seq<char>) -> Seq<
    Seq<char>,
>
    decreases shades.len(),
{
    if shades.len() == 0 {
        Seq::empty()
    } else if shades[0].0 == family {
        shades[0].1
    } else {
        shades_of(shades.drop_first(), family)
    }
}

/// The command that opens the next list of completions.
pub open spec fn retrigger() -> CommandView {
    CommandView { title: "Trigger Suggest"@, command: "editor.action.triggerSuggest"@ }
}

/// The item of a colour. One that has shades inserts a colon and opens the list of these.
pub open spec fn color_item(name: Seq<char>, prefix: Seq<char>, has_next_level: bool) -> CompletionItemView {
    CompletionItemView {
        detail: Some(prefix + ":"@ + name),
        insert_text: if has_next_level {
            Some(name + ":"@)
        } else {
            None
        },
        command: if has_next_level {
            Some(retrigger())
        } else {
            None
        },
        ..completion::plain_item(name, CompletionItemKind::Color)
    }
}

/// The items of colours.
pub open spec fn colors(names: Seq<Seq<char>>, prefix: Seq<char>, has_next_level: bool) -> Seq<
    CompletionItemView,
> {
    Seq::new(names.len(), |i: int| color_item(names[i], prefix, has_next_level))
}

/// The item of a shade.
pub open spec fn shade_item(shade: Seq<char>, prefix: Seq<char>, family: Seq<char>) -> CompletionItemView {
    CompletionItemView {
        detail: Some(prefix + ":"@ + family + ":"@ + shade),
        ..completion::plain_item(shade, CompletionItemKind::Color)
    }
}

/// The items of shades.
pub open spec fn shade_list(shades: Seq<Seq<char>>, prefix: Seq<char>, family: Seq<char>) -> Seq<
    CompletionItemView,
> {
    Seq::new(shades.len(), |i: int| shade_item(shades[i], prefix, family))
}

/// An item of an enum, written in full.
pub open spec fn enum_literal(enum_name: Seq<char>, variant: Seq<char>) -> Seq<char> {
    "Enum."@ + enum_name + "."@ + variant
}

/// The item of an enum's item in short, with a colon in front of it or for behind one.
pub open spec fn variant_item(enum_name: Seq<char>, variant: Seq<char>, prepend_colon: bool) -> CompletionItemView {
    let label = if prepend_colon {
        ":"@ + variant
    } else {
        variant
    };
    CompletionItemView {
        detail: Some(enum_literal(enum_name, variant)),
        insert_text: if prepend_colon {
            Some(label)
        } else {
            None
        },
        ..completion::plain_item(label, CompletionItemKind::EnumMember)
    }
}

/// The item of an enum's item in full.
pub open spec fn longform_item(enum_name: Seq<char>, variant: Seq<char>) -> CompletionItemView {
    let literal = enum_literal(enum_name, variant);
    CompletionItemView {
        detail: Some(literal),
        insert_text: Some(literal),
        ..completion::plain_item(literal, CompletionItemKind::EnumMember)
    }
}

/// The items of an enum in short.
pub open spec fn variants(db: ReflectionView, enum_name: Seq<char>, prepend_colon: bool) -> Seq<
    CompletionItemView,
> {
    let items = lookup::items_of_enum(db, enum_name);
    Seq::new(items.len(), |i: int| variant_item(enum_name, items[i], prepend_colon))
}

/// The items of an enum in full.
pub open spec fn longforms(db: ReflectionView, enum_name: Seq<char>) -> Seq<CompletionItemView> {
    let items = lookup::items_of_enum(db, enum_name);
    Seq::new(items.len(), |i: int| longform_item(enum_name, items[i]))
}

/// The constructor of a type of values.
pub open spec fn constructor_of(value_type: Seq<char>) -> Option<Seq<char>> {
    if value_type == "UDim"@ {
        Some("udim"@)
    } else if value_type == "UDim2"@ {
        Some("udim2"@)
    } else if value_type == "Vector2"@ {
        Some("vec2"@)
    } else if value_type == "Vector2int16"@ {
        Some("vec2i16"@)
    } else if value_type == "Vector3"@ {
        Some("vec3"@)
    } else if value_type == "Vector3int16"@ {
        Some("vec3i16"@)
    } else if value_type == "CFrame"@ {
        Some("cframe"@)
    } else if value_type == "Rect"@ {
        Some("rect"@)
    } else if value_type == "NumberRange"@ {
        Some("numrange"@)
    } else if value_type == "NumberSequence"@ {
        Some("numseq"@)
    } else if value_type == "ColorSequence"@ {
        Some("colorseq"@)
    } else if value_type == "Font"@ {
        Some("font"@)
    } else if value_type == "Content"@ || value_type == "ContentId"@ {
        Some("content"@)
    } else if value_type == "BrickColor"@ {
        Some("brickcolor"@)
    } else {
        None
    }
}

/// What a constructor's arguments are filled in with.
pub open spec fn arg_defaults(name: Seq<char>) -> Option<Seq<Seq<char>>> {
    if name == "udim"@ || name == "vec2"@ || name == "vec2i16"@ || name == "numrange"@ {
        Some(seq!["0"@, "0"@])
    } else if name == "vec3"@ || name == "vec3i16"@ || name == "color3"@ || name == "rgb"@ || name
        == "oklab"@ || name == "oklch"@ || name == "cframe"@ || name == "lerp"@ {
        Some(seq!["0"@, "0"@, "0"@])
    } else if name == "udim2"@ || name == "rect"@ {
        Some(seq!["0"@, "0"@, "0"@, "0"@])
    } else if name == "brickcolor"@ || name == "content"@ {
        Some(seq!["\"\""@])
    } else if name == "numseq"@ || name == "floor"@ || name == "ceil"@ || name == "round"@ || name
        == "abs"@ {
        Some(seq!["0"@])
    } else if name == "colorseq"@ {
        Some(seq!["color3(0, 0, 0)"@])
    } else if name == "font"@ {
        Some(seq!["\"SourceSansPro\""@])
    } else {
        None
    }
}

/// The argument at `i` of a snippet, counted from one, with what it is filled in with.
pub open spec fn placeholder(i: int, default: Seq<char>) -> Seq<char> {
    "${"@ + strings::decimal((i + 1) as nat) + ":"@ + default + "}"@
}

/// The arguments of a snippet.
pub open spec fn placeholders(defaults: Seq<Seq<char>>) -> Seq<char>
    decreases defaults.len(),
{
    if defaults.len() == 0 {
        Seq::empty()
    } else if defaults.len() == 1 {
        placeholder(0, defaults[0])
    } else {
        placeholders(defaults.drop_last()) + ", "@ + placeholder(
            defaults.len() - 1,
            defaults.last(),
        )
    }
}

/// The item of a constructor: a snippet with its arguments filled in.
pub open spec fn constructor_item(name: Seq<char>) -> CompletionItemView {
    CompletionItemView {
        detail: Some(name + " (...)"@),
        insert_text: Some(
            match arg_defaults(name) {
                Some(defaults) => name + " ("@ + placeholders(defaults) + ")$0"@,
                None => name + " ($0)"@,
            },
        ),
        insert_text_format: Some(InsertTextFormat::Snippet),
        ..completion::plain_item(name + " (…)"@, CompletionItemKind::Function)
    }
}

/// The item of a family of colours, which opens the list of these.
pub open spec fn stub_item(prefix: Seq<char>) -> CompletionItemView {
    CompletionItemView {
        detail: Some(prefix + "…"@),
        command: Some(retrigger()),
        ..completion::plain_item(prefix, CompletionItemKind::Color)
    }
}

/// The items of a colour.
pub open spec fn color3() -> Seq<CompletionItemView> {
    seq![
        constructor_item("color3"@),
        constructor_item("rgb"@),
        stub_item("tw:"@),
        stub_item("skin:"@),
        stub_item("bc:"@),
        stub_item("css:"@),
    ]
}

/// The items of a type of values.
pub open spec fn type_items(value_type: Seq<char>) -> Seq<CompletionItemView> {
    if value_type == "Bool"@ {
        seq![
            completion::plain_item("true"@, CompletionItemKind::Keyword),
            completion::plain_item("false"@, CompletionItemKind::Keyword),
        ]
    } else if value_type == "Color3"@ || value_type == "Color3uint8"@ {
        color3()
    } else {
        match constructor_of(value_type) {
            Some(name) => seq![constructor_item(name)],
            None => Seq::empty(),
        }
    }
}

/// The items of a value of which nothing has been typed: those of the property's enum, in
/// short and in full, or those of the property's type.
pub open spec fn fresh(db: ReflectionView, class_names: Seq<Seq<char>>, property_name: Seq<char>) -> Seq<
    CompletionItemView,
> {
    match lookup::descriptor(db, class_names, property_name) {
        Some(property) => match property.data_type {
            PropertyTypeView::Enum(enum_name) => variants(db, enum_name, true) + longforms(
                db,
                enum_name,
            ),
            PropertyTypeView::Value(value_type) => type_items(value_type),
            PropertyTypeView::Other => Seq::empty(),
        },
        None => Seq::empty(),
    }
}

/// The items behind a colon: those of the property's enum.
pub open spec fn shorthand(
    db: ReflectionView,
    class_names: Seq<Seq<char>>,
    property_name: Seq<char>,
) -> Seq<CompletionItemView> {
    match lookup::enum_of_property(db, class_names, property_name) {
        Some(enum_name) => variants(db, enum_name, false),
        None => Seq::empty(),
    }
}

/// The items that complete a value of which `typed` stands before the cursor.
pub open spec fn value_items(
    typed: PrefixView,
    class_names: Seq<Seq<char>>,
    property_name: Seq<char>,
    db: ReflectionView,
    palette: PaletteView,
) -> Seq<CompletionItemView> {
    match typed {
        PrefixView::InsideConstructor => Seq::empty(),
        PrefixView::EnumShorthand => shorthand(db, class_names, property_name),
        PrefixView::TailwindFamily { .. } => colors(palette.tailwind_families, "tw"@, true),
        PrefixView::TailwindShade { family } => shade_list(
            shades_of(palette.tailwind_shades, family),
            "tw"@,
            family,
        ),
        PrefixView::SkinFamily { .. } => colors(palette.skin_families, "skin"@, true),
        PrefixView::SkinShade { family } => shade_list(
            shades_of(palette.skin_shades, family),
            "skin"@,
            family,
        ),
        PrefixView::BrickFamily { .. } => colors(palette.brick_names, "bc"@, false),
        PrefixView::CssFamily { .. } => colors(palette.css_names, "css"@, false),
        PrefixView::Fresh => fresh(db, class_names, property_name),
    }
}

fn retrigger_command() -> (r: Command)
    ensures
        r.deep_view() == retrigger(),
{
    Command {
        title: "Trigger Suggest".to_owned(),
        command: "editor.action.triggerSuggest".to_owned(),
    }
}

/// The items of colours. Where shades follow, an item inserts a colon behind its name and opens
/// the list again.
pub fn color_items(names: &Vec<String>, prefix: &str, has_next_level: bool) -> (r: Vec<
    CompletionItem,
>)
    ensures
        r.deep_view() == colors(names.deep_view(), prefix@, has_next_level),
{
    let ghost goal = colors(names.deep_view(), prefix@, has_next_level);
    let mut out: Vec<CompletionItem> = Vec::new();
    let mut i: usize = 0;
    while i < names.len()
        invariant
            i <= names@.len(),
            goal == colors(names.deep_view(), prefix@, has_next_level),
            out.deep_view() == goal.take(i as int),
        decreases names@.len() - i,
    {
        let name = names[i].as_str();
        let mut item = CompletionItem::plain(name, CompletionItemKind::Color);
        item.detail = Some(join3(prefix, ":", name));
        if has_next_level {
            item.insert_text = Some(join2(name, ":"));
            item.command = Some(retrigger_command());
        }
        assert(item.deep_view() == goal[i as int]);
        let ghost before = out;
        out.push(item);
        proof {
            completion::lemma_push_view(before, item, out);
        }
        assert(goal.take(i + 1) =~= goal.take(i as int).push(goal[i as int]));
        i += 1;
    }
    assert(goal.take(i as int) =~= goal);
    out
}

fn shade_items(shades: &Vec<String>, prefix: &str, family: &str) -> (r: Vec<CompletionItem>)
    ensures
        r.deep_view() == shade_list(shades.deep_view(), prefix@, family@),
{
    let ghost goal = shade_list(shades.deep_view(), prefix@, family@);
    let mut out: Vec<CompletionItem> = Vec::new();
    let mut i: usize = 0;
    while i < shades.len()
        invariant
            i <= shades@.len(),
            goal == shade_list(shades.deep_view(), prefix@, family@),
            out.deep_view() == goal.take(i as int),
        decreases shades@.len() - i,
    {
        let shade = shades[i].as_str();
        let mut item = CompletionItem::plain(shade, CompletionItemKind::Color);
        let mut detail = join3(prefix, ":", family);
        detail.append(":");
        detail.append(shade);
        item.detail = Some(detail);
        assert(item.deep_view() == goal[i as int]);
        let ghost before = out;
        out.push(item);
        proof {
            completion::lemma_push_view(before, item, out);
        }
        assert(goal.take(i + 1) =~= goal.take(i as int).push(goal[i as int]));
        i += 1;
    }
    assert(goal.take(i as int) =~= goal);
    out
}

proof fn lemma_shades_skips(shades: Seq<(Seq<char>, Seq<Seq<char>>)>, family: Seq<char>, n: int)
    requires
        0 <= n <= shades.len(),
        forall|j: int| 0 <= j < n ==> (#[trigger] shades[j]).0 != family,
    ensures
        shades_of(shades, family) == shades_of(shades.skip(n), family),
    decreases n,
{
    if n == 0 {
        assert(shades.skip(0) =~= shades);
    } else {
        assert forall|j: int| 0 <= j < n - 1 implies (
        #[trigger] shades.drop_first()[j]).0 != family by {
            assert(shades[j + 1].0 != family);
        }
        lemma_shades_skips(shades.drop_first(), family, n - 1);
        assert(shades.drop_first().skip(n - 1) =~= shades.skip(n));
    }
}

fn family_shade_items(
    shades: &Vec<(String, Vec<String>)>,
    prefix: &str,
    family: &str,
) -> (r: Vec<CompletionItem>)
    ensures
        r.deep_view() == shade_list(shades_of(shades.deep_view(), family@), prefix@, family@),
{
    let ghost views = shades.deep_view();
    let mut i: usize = 0;
    while i < shades.len()
        invariant
            i <= shades@.len(),
            views == shades.deep_view(),
            forall|j: int| 0 <= j < i ==> (#[trigger] views[j]).0 != family@,
        decreases shades@.len() - i,
    {
        if str_eq(shades[i].0.as_str(), family) {
            proof {
                lemma_shades_skips(views, family@, i as int);
                assert(views.skip(i as int)[0] == views[i as int]);
            }
            return shade_items(&shades[i].1, prefix, family);
        }
        assert(views[i as int].0 != family@);
        i += 1;
    }
    proof {
        lemma_shades_skips(views, family@, i as int);
    }
    let none: Vec<CompletionItem> = Vec::new();
    assert(none.deep_view() =~= shade_list(shades_of(views, family@), prefix@, family@));
    none
}

fn enum_literal_text(enum_name: &str, variant: &str) -> (r: String)
    ensures
        r@ == enum_literal(enum_name@, variant@),
{
    let mut literal = join3("Enum.", enum_name, ".");
    literal.append(variant);
    literal
}

fn enum_variant_items(db: &Reflection, enum_name: &str, prepend_colon: bool) -> (r: Vec<
    CompletionItem,
>)
    ensures
        r.deep_view() == variants(db.deep_view(), enum_name@, prepend_colon),
{
    let ghost goal = variants(db.deep_view(), enum_name@, prepend_colon);
    let mut out: Vec<CompletionItem> = Vec::new();
    let found = match db.enum_named(enum_name) {
        Some(found) => found,
        None => {
            assert(out.deep_view() =~= goal);
            return out;
        },
    };
    let ghost items = lookup::items_of_enum(db.deep_view(), enum_name@);
    let mut i: usize = 0;
    while i < found.items.len()
        invariant
            i <= found.items@.len(),
            items == found.items.deep_view(),
            items == lookup::items_of_enum(db.deep_view(), enum_name@),
            goal == variants(db.deep_view(), enum_name@, prepend_colon),
            out.deep_view() == goal.take(i as int),
        decreases found.items@.len() - i,
    {
        let variant = found.items[i].as_str();
        let mut item = if prepend_colon {
            let literal = join2(":", variant);
            let mut item = CompletionItem::plain(literal.as_str(), CompletionItemKind::EnumMember);
            item.insert_text = Some(literal);
            item
        } else {
            CompletionItem::plain(variant, CompletionItemKind::EnumMember)
        };
        item.detail = Some(enum_literal_text(enum_name, variant));
        assert(variant@ == items[i as int]);
        assert(item.deep_view() == goal[i as int]);
        let ghost before = out;
        out.push(item);
        proof {
            completion::lemma_push_view(before, item, out);
        }
        assert(goal.take(i + 1) =~= goal.take(i as int).push(goal[i as int]));
        i += 1;
    }
    assert(goal.take(i as int) =~= goal);
    out
}

fn enum_variant_longform_items(db: &Reflection, enum_name: &str) -> (r: Vec<CompletionItem>)
    ensures
        r.deep_view() == longforms(db.deep_view(), enum_name@),
{
    let ghost goal = longforms(db.deep_view(), enum_name@);
    let mut out: Vec<CompletionItem> = Vec::new();
    let found = match db.enum_named(enum_name) {
        Some(found) => found,
        None => {
            assert(out.deep_view() =~= goal);
            return out;
        },
    };
    let ghost items = lookup::items_of_enum(db.deep_view(), enum_name@);
    let mut i: usize = 0;
    while i < found.items.len()
        invariant
            i <= found.items@.len(),
            items == found.items.deep_view(),
            items == lookup::items_of_enum(db.deep_view(), enum_name@),
            goal == longforms(db.deep_view(), enum_name@),
            out.deep_view() == goal.take(i as int),
        decreases found.items@.len() - i,
    {
        let variant = found.items[i].as_str();
        let literal = enum_literal_text(enum_name, variant);
        let mut item = CompletionItem::plain(literal.as_str(), CompletionItemKind::EnumMember);
        item.detail = Some(literal.clone());
        item.insert_text = Some(literal);
        assert(variant@ == items[i as int]);
        assert(item.deep_view() == goal[i as int]);
        let ghost before = out;
        out.push(item);
        proof {
            completion::lemma_push_view(before, item, out);
        }
        assert(goal.take(i + 1) =~= goal.take(i as int).push(goal[i as int]));
        i += 1;
    }
    assert(goal.take(i as int) =~= goal);
    out
}

/// What the arguments of a constructor are filled in with.
pub fn constructor_arg_defaults(name: &str) -> (r: Option<Vec<&'static str>>)
    ensures
        r.deep_view() == arg_defaults(name@),
{
    let mut out: Vec<&'static str> = Vec::new();
    if is_one_of(name, &["udim", "vec2", "vec2i16", "numrange"]) {
        out.push("0");
        out.push("0");
    } else if is_one_of(
        name,
        &["vec3", "vec3i16", "color3", "rgb", "oklab", "oklch", "cframe", "lerp"],
    ) {
        out.push("0");
        out.push("0");
        out.push("0");
    } else if is_one_of(name, &["udim2", "rect"]) {
        out.push("0");
        out.push("0");
        out.push("0");
        out.push("0");
    } else if is_one_of(name, &["brickcolor", "content"]) {
        out.push("\"\"");
    } else if is_one_of(name, &["numseq", "floor", "ceil", "round", "abs"]) {
        out.push("0");
    } else if str_eq(name, "colorseq") {
        out.push("color3(0, 0, 0)");
    } else if str_eq(name, "font") {
        out.push("\"SourceSansPro\"");
    } else {
        return None;
    }
    assert(out.deep_view() =~= arg_defaults(name@)->0);
    Some(out)
}

fn placeholder_texts(defaults: &Vec<&'static str>) -> (r: String)
    ensures
        r@ == placeholders(defaults.deep_view()),
{
    let ghost views = defaults.deep_view();
    let mut out = String::new();
    let mut i: usize = 0;
    assert(views.take(0) =~= Seq::empty());
    assert(out@ =~= Seq::empty());
    while i < defaults.len()
        invariant
            i <= defaults@.len(),
            views == defaults.deep_view(),
            out@ == placeholders(views.take(i as int)),
        decreases defaults@.len() - i,
    {
        let ghost next = views.take(i + 1);
        assert(next.drop_last() =~= views.take(i as int));
        let number = decimal_text(i + 1);
        let mut arg = join3("${", number.as_str(), ":");
        arg.append(defaults[i]);
        arg.append("}");
        assert(arg@ == placeholder(i as int, next.last()));
        if i > 0 {
            out.append(", ");
        } else {
            assert(next[0] == next.last());
            assert(Seq::<char>::empty() + arg@ =~= arg@);
            assert(out@ =~= Seq::empty());
        }
        out.append(arg.as_str());
        assert(out@ =~= placeholders(next));
        i += 1;
    }
    assert(views.take(i as int) =~= views);
    out
}

fn constructor(name: &str) -> (r: CompletionItem)
    ensures
        r.deep_view() == constructor_item(name@),
{
    let insert_text = match constructor_arg_defaults(name) {
        Some(defaults) => {
            let args = placeholder_texts(&defaults);
            let mut snippet = join3(name, " (", args.as_str());
            snippet.append(")$0");
            snippet
        },
        None => join2(name, " ($0)"),
    };
    let label = join2(name, " (…)");
    let mut item = CompletionItem::plain(label.as_str(), CompletionItemKind::Function);
    item.insert_text = Some(insert_text);
    item.insert_text_format = Some(InsertTextFormat::Snippet);
    item.detail = Some(join2(name, " (...)"));
    item
}

fn color3_stub(prefix: &str) -> (r: CompletionItem)
    ensures
        r.deep_view() == stub_item(prefix@),
{
    let mut item = CompletionItem::plain(prefix, CompletionItemKind::Color);
    item.detail = Some(join2(prefix, "…"));
    item.command = Some(retrigger_command());
    item
}

fn color3_items() -> (r: Vec<CompletionItem>)
    ensures
        r.deep_view() == color3(),
{
    let mut items: Vec<CompletionItem> = Vec::new();
    items.push(constructor("color3"));
    items.push(constructor("rgb"));
    items.push(color3_stub("tw:"));
    items.push(color3_stub("skin:"));
    items.push(color3_stub("bc:"));
    items.push(color3_stub("css:"));
    assert(items.deep_view() =~= color3());
    items
}

fn constructor_name(value_type: &str) -> (r: Option<&'static str>)
    ensures
        r.deep_view() == constructor_of(value_type@),
{
    if str_eq(value_type, "UDim") {
        Some("udim")
    } else if str_eq(value_type, "UDim2") {
        Some("udim2")
    } else if str_eq(value_type, "Vector2") {
        Some("vec2")
    } else if str_eq(value_type, "Vector2int16") {
        Some("vec2i16")
    } else if str_eq(value_type, "Vector3") {
        Some("vec3")
    } else if str_eq(value_type, "Vector3int16") {
        Some("vec3i16")
    } else if str_eq(value_type, "CFrame") {
        Some("cframe")
    } else if str_eq(value_type, "Rect") {
        Some("rect")
    } else if str_eq(value_type, "NumberRange") {
        Some("numrange")
    } else if str_eq(value_type, "NumberSequence") {
        Some("numseq")
    } else if str_eq(value_type, "ColorSequence") {
        Some("colorseq")
    } else if str_eq(value_type, "Font") {
        Some("font")
    } else if str_eq(value_type, "Content") || str_eq(value_type, "ContentId") {
        Some("content")
    } else if str_eq(value_type, "BrickColor") {
        Some("brickcolor")
    } else {
        None
    }
}

fn value_type_items(value_type: &str) -> (r: Vec<CompletionItem>)
    ensures
        r.deep_view() == type_items(value_type@),
{
    let mut items: Vec<CompletionItem> = Vec::new();
    if str_eq(value_type, "Bool") {
        items.push(CompletionItem::plain("true", CompletionItemKind::Keyword));
        items.push(CompletionItem::plain("false", CompletionItemKind::Keyword));
    } else if str_eq(value_type, "Color3") || str_eq(value_type, "Color3uint8") {
        return color3_items();
    } else if let Some(name) = constructor_name(value_type) {
        items.push(constructor(name));
    }
    assert(items.deep_view() =~= type_items(value_type@));
    items
}

pub(super) fn no_items() -> (r: Vec<CompletionItem>)
    ensures
        r.deep_view() == Seq::<CompletionItemView>::empty(),
{
    let none: Vec<CompletionItem> = Vec::new();
    assert(none.deep_view() =~= Seq::empty());
    none
}

fn fresh_items(db: &Reflection, class_names: &Vec<String>, property_name: &str) -> (r: Vec<
    CompletionItem,
>)
    ensures
        r.deep_view() == fresh(
            db.deep_view(),
            definitions::names_view(class_names@),
            property_name@,
        ),
{
    let descriptor = match lookup_descriptor(db, class_names, property_name) {
        Some(descriptor) => descriptor,
        None => return no_items(),
    };
    match &descriptor.data_type {
        PropertyType::Enum(enum_name) => {
            let mut items = enum_variant_items(db, enum_name.as_str(), true);
            let mut longform_items = enum_variant_longform_items(db, enum_name.as_str());
            let ghost first = items;
            let ghost second = longform_items;
            items.append(&mut longform_items);
            assert(items.deep_view() =~= first.deep_view() + second.deep_view());
            items
        },
        PropertyType::Value(value_type) => value_type_items(value_type.as_str()),
        PropertyType::Other => no_items(),
    }
}

fn enum_shorthand_items(db: &Reflection, class_names: &Vec<String>, property_name: &str) -> (r: Vec<
    CompletionItem,
>)
    ensures
        r.deep_view() == shorthand(
            db.deep_view(),
            definitions::names_view(class_names@),
            property_name@,
        ),
{
    match enum_name_in(db, class_names, property_name) {
        Some(enum_name) => enum_variant_items(db, enum_name.as_str(), false),
        None => no_items(),
    }
}

/// The completions of a property's value at the byte at `offset`, by the classes and enums
/// of `db`.
pub fn value_completions(
    source: &str,
    offset: usize,
    class_names: &Vec<String>,
    property_name: &str,
    db: &Reflection,
    palette: &Palette,
) -> (r: Vec<CompletionItem>)
    ensures
        r.deep_view() == value_items(
            prefix::value_prefix(source@, text::char_of_byte(source@, offset as int) as int),
            definitions::names_view(class_names@),
            property_name@,
            db.deep_view(),
            palette.deep_view(),
        ),
{
    match scan_value_prefix(source, offset) {
        ValuePrefix::InsideConstructor => no_items(),
        ValuePrefix::EnumShorthand => enum_shorthand_items(db, class_names, property_name),
        ValuePrefix::TailwindFamily { .. } => color_items(&palette.tailwind_families, "tw", true),
        ValuePrefix::TailwindShade { family } => family_shade_items(
            &palette.tailwind_shades,
            "tw",
            family,
        ),
        ValuePrefix::SkinFamily { .. } => color_items(&palette.skin_families, "skin", true),
        ValuePrefix::SkinShade { family } => family_shade_items(
            &palette.skin_shades,
            "skin",
            family,
        ),
        ValuePrefix::BrickFamily { .. } => color_items(&palette.brick_names, "bc", false),
        ValuePrefix::CssFamily { .. } => color_items(&palette.css_names, "css", false),
        ValuePrefix::Fresh => fresh_items(db, class_names, property_name),
    }
}

/// The completions of a property's value at the byte at `offset`, by the classes and enums
/// that the machine has.
pub fn get_value_completions(
    source: &str,
    offset: usize,
    class_names: &Vec<String>,
    property_name: &str,
    palette: &Palette,
) -> (r: Vec<CompletionItem>)
    ensures
        exists|db: ReflectionView|
            db.is_keyed() && r.deep_view() == #[trigger] value_items(
                prefix::value_prefix(source@, text::char_of_byte(source@, offset as int) as int),
                definitions::names_view(class_names@),
                property_name@,
                db,
                palette.deep_view(),
            ),
{
    let db = Reflection::load_or_empty();
    value_completions(source, offset, class_names, property_name, &db, palette)
}

/// The name of the enum that a property takes its values from, by the classes that the
/// machine has.
pub fn property_enum_name(class_names: &Vec<String>, property_name: &str) -> (r: Option<String>)
    ensures
        exists|db: ReflectionView|
            db.is_keyed() && r.deep_view() == #[trigger] lookup::enum_of_property(
                db,
                definitions::names_view(class_names@),
                property_name@,
            ),
{
    let db = Reflection::load_or_empty();
    enum_name_in(&db, class_names, property_name)
}

/// Whether a name can be typed as part of a colour.
pub open spec fn is_color_name(name: Seq<char>) -> bool {
    forall|i: int| 0 <= i < name.len() ==> prefix::is_word(#[trigger] name[i]) && name[i] != ':'
}

/// What stands before the cursor, where it stands at the end of the text.
pub open spec fn prefix_at_end(source: Seq<char>) -> PrefixView {
    prefix::value_prefix(
        source,
        text::char_of_byte(source, text::utf8_len(source) as int) as int,
    )
}

proof fn lemma_word_start(source: Seq<char>, start: int, end: int)
    requires
        0 <= start <= end <= source.len(),
        start == 0 || !prefix::is_word(source[start - 1]),
        forall|i: int| start <= i < end ==> prefix::is_word(#[trigger] source[i]),
    ensures
        prefix::word_start(source, end) == start,
    decreases end - start,
{
    if start < end {
        lemma_word_start(source, start, end - 1);
    }
}

proof fn lemma_word_at_end(before: Seq<char>, word: Seq<char>)
    requires
        before.len() == 0 || !prefix::is_word(before.last()),
        word.len() > 0,
        forall|i: int| 0 <= i < word.len() ==> prefix::is_word(#[trigger] word[i]),
    ensures
        prefix_at_end(before + word) == prefix::word_prefix(word),
{
    let source = before + word;
    text::lemma_char_of_last_byte(source);
    assert forall|i: int| before.len() <= i < source.len() implies prefix::is_word(
        #[trigger] source[i],
    ) by {
        assert(source[i] == word[i - before.len()]);
    }
    lemma_word_start(source, before.len() as int, source.len() as int);
    assert(source.subrange(before.len() as int, source.len() as int) =~= word);
    assert(source[source.len() - 1] == word[word.len() - 1]);
}

/// A family of colours that is inserted leads on to its shades: the item has the name for its
/// label, opens the next list, and what then stands before the cursor asks for the shades of
/// the family. The list of families does not come again.
pub proof fn lemma_family_leads_to_shades(before: Seq<char>, names: Seq<Seq<char>>, i: int)
    requires
        before.len() == 0 || !prefix::is_word(before.last()),
        0 <= i < names.len(),
        is_color_name(names[i]),
    ensures
        ({
            let item = colors(names, "tw"@, true)[i];
            &&& item.label == names[i]
            &&& item.command == Some(retrigger())
            &&& item.insert_text matches Some(inserted) && prefix_at_end(
                before + ("tw:"@ + inserted),
            ) == (PrefixView::TailwindShade { family: item.label })
        }),
        ({
            let item = colors(names, "skin"@, true)[i];
            &&& item.label == names[i]
            &&& item.command == Some(retrigger())
            &&& item.insert_text matches Some(inserted) && prefix_at_end(
                before + ("skin:"@ + inserted),
            ) == (PrefixView::SkinShade { family: item.label })
        }),
{
    reveal_strlit("tw:");
    reveal_strlit("skin:");
    reveal_strlit(":");
    let name = names[i];
    let inserted = name + ":"@;
    strings::lemma_before_first(inserted, ':', name.len() as int);
    assert(inserted.take(name.len() as int) =~= name);
    assert(inserted[name.len() as int] == ':');
    assert(inserted.contains(':'));
    assert forall|j: int| 0 <= j < inserted.len() implies prefix::is_word(
        #[trigger] inserted[j],
    ) by {
        if j < name.len() {
            assert(inserted[j] == name[j]);
        }
    }
    let tailwind = "tw:"@ + inserted;
    assert(tailwind.skip(3) =~= inserted);
    assert("tw:"@ =~= tailwind.subrange(0, 3));
    assert forall|j: int| 0 <= j < tailwind.len() implies prefix::is_word(
        #[trigger] tailwind[j],
    ) by {
        if j >= 3 {
            assert(tailwind[j] == inserted[j - 3]);
        }
    }
    lemma_word_at_end(before, tailwind);
    let skin = "skin:"@ + inserted;
    assert(skin.skip(5) =~= inserted);
    assert("skin:"@ =~= skin.subrange(0, 5));
    assert(skin[0] == 's');
    assert(tailwind[0] == 't');
    assert(!"tw:"@.is_prefix_of(skin)) by {
        assert(skin.subrange(0, 3)[0] == 's');
        assert("tw:"@[0] == 't');
    }
    assert forall|j: int| 0 <= j < skin.len() implies prefix::is_word(#[trigger] skin[j]) by {
        if j >= 5 {
            assert(skin[j] == inserted[j - 5]);
        }
    }
    lemma_word_at_end(before, skin);
}

/// A colour without shades is inserted as it is named, and opens no other list.
pub proof fn lemma_last_level_is_inserted(names: Seq<Seq<char>>, prefix: Seq<char>, i: int)
    requires
        0 <= i < names.len(),
    ensures
        colors(names, prefix, false).len() == names.len(),
        colors(names, prefix, false)[i].label == names[i],
        colors(names, prefix, false)[i].insert_text is None,
        colors(names, prefix, false)[i].command is None,
{
}

/// The lists of families and of colours without shades: they hold the names in order; each
/// family opens the next list, and what it inserts behind `= tw:` asks there for its shades; a
/// colour without shades inserts its name alone and opens no list.
pub proof fn lemma_color_lists(names: Seq<Seq<char>>)
    requires
        forall|i: int| 0 <= i < names.len() ==> is_color_name(#[trigger] names[i]),
    ensures
        colors(names, "tw"@, true).len() == names.len(),
        colors(names, "css"@, false).len() == names.len(),
        forall|i: int|
            0 <= i < names.len() ==> {
                let item = #[trigger] colors(names, "tw"@, true)[i];
                &&& item.label == names[i]
                &&& item.command == Some(retrigger())
                &&& item.insert_text matches Some(inserted) && prefix_at_end("= tw:"@ + inserted)
                    == (PrefixView::TailwindShade { family: item.label })
            },
        forall|i: int|
            0 <= i < names.len() ==> {
                let item = #[trigger] colors(names, "css"@, false)[i];
                item.label == names[i] && item.insert_text is None && item.command is None
            },
{
    reveal_strlit("= tw:");
    reveal_strlit("= ");
    reveal_strlit("tw:");
    assert("= tw:"@ =~= "= "@ + "tw:"@);
    assert forall|i: int| 0 <= i < names.len() implies {
        let item = #[trigger] colors(names, "tw"@, true)[i];
        &&& item.label == names[i]
        &&& item.command == Some(retrigger())
        &&& item.insert_text matches Some(inserted) && prefix_at_end("= tw:"@ + inserted) == (
        PrefixView::TailwindShade { family: item.label })
    } by {
        lemma_family_leads_to_shades("= "@, names, i);
        let inserted = colors(names, "tw"@, true)[i].insert_text->0;
        assert("= "@ + ("tw:"@ + inserted) =~= "= tw:"@ + inserted);
    }
}

} // verus!
