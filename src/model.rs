//! The narrative data and the statements that the syntax layer hands over.

use vstd::prelude::*;
use crate::error::{ParseError, ParseErrorView};
use crate::keys::same_text;

verus! {

/// The kind of a declared symbol.
#[derive(Debug, Clone, Copy, PartialEq, Eq, Structural)]
pub enum SymbolType {
    Character,
    Act,
}

/// The kind that a declaration's leading token names, if any.
pub open spec fn symbol_type_of(token: Seq<char>) -> Option<SymbolType> {
    if token == "character"@ {
        Some(SymbolType::Character)
    } else if token == "act"@ {
        Some(SymbolType::Act)
    } else {
        None
    }
}

impl SymbolType {
    pub fn from_str(token: &str) -> (r: Result<SymbolType, ParseError>)
        ensures
            symbol_type_of(token@) is Some ==> r == Ok::<SymbolType, ParseError>(
                symbol_type_of(token@)->Some_0,
            ),
            symbol_type_of(token@) is None ==> r is Err && r->Err_0@ == ParseErrorView::UnknownAtom(
                token@,
            ),
    {
        if same_text(token, "character") {
            Ok(SymbolType::Character)
        } else if same_text(token, "act") {
            Ok(SymbolType::Act)
        } else {
            Err(ParseError::UnknownAtom(token.to_owned()))
        }
    }
}

/// One key/value pair attached to a symbol.
#[derive(Debug)]
pub struct SymbolAttributes {
    pub key: String,
    pub value: String,
}

impl View for SymbolAttributes {
    type V = (Seq<char>, Seq<char>);

    open spec fn view(&self) -> (Seq<char>, Seq<char>) {
        (self.key@, self.value@)
    }
}

impl SymbolAttributes {
    pub fn new(key: String, value: String) -> (r: Self)
        ensures
            r.key == key,
            r.value == value,
    {
        SymbolAttributes { key, value }
    }

    pub fn duplicate(&self) -> (r: Self)
        ensures
            r@ == self@,
    {
        SymbolAttributes { key: self.key.clone(), value: self.value.clone() }
    }
}

pub open spec fn attrs_view(a: Seq<SymbolAttributes>) -> Seq<(Seq<char>, Seq<char>)> {
    a.map_values(|x: SymbolAttributes| x@)
}

/// A copy of a list of attributes.
pub fn duplicate_attributes(a: &Vec<SymbolAttributes>) -> (r: Vec<SymbolAttributes>)
    ensures
        attrs_view(r@) == attrs_view(a@),
{
    let mut r: Vec<SymbolAttributes> = Vec::new();
    let mut i: usize = 0;
    while i < a.len()
        invariant
            i <= a@.len(),
            r@.len() == i,
            forall|j: int| 0 <= j < i ==> (#[trigger] r@[j])@ == a@[j]@,
        decreases a@.len() - i,
    {
        r.push(a[i].duplicate());
        i = i + 1;
    }
    proof {
        assert(attrs_view(r@) =~= attrs_view(a@));
    }
    r
}

/// One option of a choice menu: its text and the act it leads to.
#[derive(Debug)]
pub struct NarrativeChoice {
    pub text: String,
    pub jump: String,
}

impl View for NarrativeChoice {
    type V = (Seq<char>, Seq<char>);

    open spec fn view(&self) -> (Seq<char>, Seq<char>) {
        (self.text@, self.jump@)
    }
}

impl NarrativeChoice {
    pub fn new(text: String, jump: String) -> (r: Self)
        ensures
            r.text == text,
            r.jump == jump,
    {
        NarrativeChoice { text, jump }
    }
}

pub open spec fn choices_view(c: Seq<NarrativeChoice>) -> Seq<(Seq<char>, Seq<char>)> {
    c.map_values(|x: NarrativeChoice| x@)
}

/// One item of an act's body.
#[derive(Debug)]
pub enum NarrativeItem {
    Dialogue {
        character: String,
        display_name: String,
        dialogue: String,
        attributes: Vec<SymbolAttributes>,
    },
    ChoiceSet {
        character: String,
        display_name: String,
        choices: Vec<NarrativeChoice>,
        attributes: Vec<SymbolAttributes>,
    },
}

pub enum NarrativeItemView {
    Dialogue {
        character: Seq<char>,
        display_name: Seq<char>,
        dialogue: Seq<char>,
        attributes: Seq<(Seq<char>, Seq<char>)>,
    },
    ChoiceSet {
        character: Seq<char>,
        display_name: Seq<char>,
        choices: Seq<(Seq<char>, Seq<char>)>,
        attributes: Seq<(Seq<char>, Seq<char>)>,
    },
}

impl View for NarrativeItem {
    type V = NarrativeItemView;

    open spec fn view(&self) -> NarrativeItemView {
        match self {
            NarrativeItem::Dialogue { character, display_name, dialogue, attributes } =>
                NarrativeItemView::Dialogue {
                character: character@,
                display_name: display_name@,
                dialogue: dialogue@,
                attributes: attrs_view(attributes@),
            },
            NarrativeItem::ChoiceSet { character, display_name, choices, attributes } =>
                NarrativeItemView::ChoiceSet {
                character: character@,
                display_name: display_name@,
                choices: choices_view(choices@),
                attributes: attrs_view(attributes@),
            },
        }
    }
}

impl NarrativeItem {
    pub fn character(&self) -> (r: &String)
        ensures
            r@ == item_character(self@),
    {
        match self {
            NarrativeItem::Dialogue { character, .. } => character,
            NarrativeItem::ChoiceSet { character, .. } => character,
        }
    }

    pub fn display_name(&self) -> (r: &String)
        ensures
            r@ == item_display_name(self@),
    {
        match self {
            NarrativeItem::Dialogue { display_name, .. } => display_name,
            NarrativeItem::ChoiceSet { display_name, .. } => display_name,
        }
    }

    pub fn attributes(&self) -> (r: &Vec<SymbolAttributes>)
        ensures
            attrs_view(r@) == item_attributes(self@),
    {
        match self {
            NarrativeItem::Dialogue { attributes, .. } => attributes,
            NarrativeItem::ChoiceSet { attributes, .. } => attributes,
        }
    }
}

pub open spec fn item_character(i: NarrativeItemView) -> Seq<char> {
    match i {
        NarrativeItemView::Dialogue { character, .. } => character,
        NarrativeItemView::ChoiceSet { character, .. } => character,
    }
}

pub open spec fn item_display_name(i: NarrativeItemView) -> Seq<char> {
    match i {
        NarrativeItemView::Dialogue { display_name, .. } => display_name,
        NarrativeItemView::ChoiceSet { display_name, .. } => display_name,
    }
}

pub open spec fn item_attributes(i: NarrativeItemView) -> Seq<(Seq<char>, Seq<char>)> {
    match i {
        NarrativeItemView::Dialogue { attributes, .. } => attributes,
        NarrativeItemView::ChoiceSet { attributes, .. } => attributes,
    }
}

pub open spec fn items_view(s: Seq<NarrativeItem>) -> Seq<NarrativeItemView> {
    s.map_values(|x: NarrativeItem| x@)
}

/// A declaration as the syntax layer hands it over.
#[derive(Debug)]
pub struct Declaration {
    /// The leading kind token: `character` or `act`.
    pub kind: String,
    pub name: String,
    /// Byte offset of the declaration in its source.
    pub position: usize,
    pub attributes: Vec<SymbolAttributes>,
}

/// One statement of a definition's body.
#[derive(Debug)]
pub enum BodyStatement {
    Dialogue { character: String, text: String },
    Choice { character: String, options: Vec<NarrativeChoice> },
}

/// A definition: an act name and its ordered body.
#[derive(Debug)]
pub struct Definition {
    pub name: String,
    pub body: Vec<BodyStatement>,
}

/// A top-level statement of one source file.
#[derive(Debug)]
pub enum Statement {
    Declaration(Declaration),
    Definition(Definition),
    /// Any other statement kind; it is skipped.
    Other,
}

/// A copy of a list of choices.
pub fn duplicate_choices(a: &Vec<NarrativeChoice>) -> (r: Vec<NarrativeChoice>)
    ensures
        choices_view(r@) == choices_view(a@),
{
    let mut r: Vec<NarrativeChoice> = Vec::new();
    let mut i: usize = 0;
    while i < a.len()
        invariant
            i <= a@.len(),
            r@.len() == i,
            forall|j: int| 0 <= j < i ==> (#[trigger] r@[j])@ == a@[j]@,
        decreases a@.len() - i,
    {
        r.push(NarrativeChoice { text: a[i].text.clone(), jump: a[i].jump.clone() });
        i = i + 1;
    }
    proof {
        assert(choices_view(r@) =~= choices_view(a@));
    }
    r
}

} // verus!
