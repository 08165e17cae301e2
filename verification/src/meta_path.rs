use vstd::prelude::*;
use vstd::string::StringExecFns;

use crate::errors::MetaPathDefinitionError;
use crate::type_table::{position_of, TypeTable};
use crate::text::{
    is_ascii_alphabetic, is_ascii_letter, non_whitespace_chars, push_char, strip_whitespace,
    string_from_chars,
};

verus! {

//////////////////////////////////////////////////////////////////////////////////////////////////
// Types
//////////////////////////////////////////////////////////////////////////////////////////////////

/// A meta-path: a start node type followed by steps, each an edge type and
/// the node type that the edge leads to. Either kind of type may be a wildcard.
#[derive(Debug, Clone)]
pub struct MetaPath<T> {
    pub start: PathComponent<T>,
    pub steps: Vec<(PathComponent<T>, PathComponent<T>)>,
}

/// One type position of a meta-path: a named type or a wildcard.
#[derive(Debug, Clone, Copy)]
pub enum PathComponent<T> {
    Typed(T),
    Wildcard,
}

/// A path component with its type name taken as a character sequence.
pub type ComponentView = PathComponent<Seq<char>>;

/// A meta-path taken as plain values: its start and its steps.
pub type MetaPathView = (ComponentView, Seq<(ComponentView, ComponentView)>);

pub open spec fn component_view(c: PathComponent<String>) -> ComponentView {
    match c {
        PathComponent::Typed(name) => PathComponent::Typed(name@),
        PathComponent::Wildcard => PathComponent::Wildcard,
    }
}

pub open spec fn step_view(p: (PathComponent<String>, PathComponent<String>)) -> (
    ComponentView,
    ComponentView,
) {
    (component_view(p.0), component_view(p.1))
}

pub open spec fn steps_view(steps: Seq<(PathComponent<String>, PathComponent<String>)>) -> Seq<
    (ComponentView, ComponentView),
> {
    steps.map_values(|p| step_view(p))
}

impl MetaPath<String> {
    /// The meta-path with its names taken as character sequences.
    pub open spec fn view_value(&self) -> MetaPathView {
        (component_view(self.start), steps_view(self.steps@))
    }
}

//////////////////////////////////////////////////////////////////////////////////////////////////
// The textual form of a meta-path
//////////////////////////////////////////////////////////////////////////////////////////////////

/// `[name]` for a node type, `[*]` for a node wildcard.
pub open spec fn render_node(c: ComponentView) -> Seq<char> {
    match c {
        PathComponent::Typed(name) => seq!['['] + name + seq![']'],
        PathComponent::Wildcard => seq!['[', '*', ']'],
    }
}

/// `-{name}->` for an edge type, `->` for an edge wildcard.
pub open spec fn render_edge(c: ComponentView) -> Seq<char> {
    match c {
        PathComponent::Typed(name) => seq!['-', '{'] + name + seq!['}', '-', '>'],
        PathComponent::Wildcard => seq!['-', '>'],
    }
}

pub open spec fn render_steps(steps: Seq<(ComponentView, ComponentView)>) -> Seq<char>
    decreases steps.len(),
{
    if steps.len() == 0 {
        Seq::empty()
    } else {
        render_edge(steps[0].0) + render_node(steps[0].1) + render_steps(steps.drop_first())
    }
}

/// The whitespace-free text of a meta-path.
pub open spec fn render(mp: MetaPathView) -> Seq<char> {
    render_node(mp.0) + render_steps(mp.1)
}

/// A type name is a non-empty run of ASCII letters.
pub open spec fn valid_name(name: Seq<char>) -> bool {
    name.len() > 0 && forall|i: int| 0 <= i < name.len() ==> is_ascii_letter(#[trigger] name[i])
}

pub open spec fn valid_component(c: ComponentView) -> bool {
    match c {
        PathComponent::Typed(name) => valid_name(name),
        PathComponent::Wildcard => true,
    }
}

pub open spec fn valid_steps(steps: Seq<(ComponentView, ComponentView)>) -> bool {
    forall|i: int|
        0 <= i < steps.len() ==> valid_component(#[trigger] steps[i].0) && valid_component(
            steps[i].1,
        )
}

/// A meta-path that a definition can describe: valid names and at least one step.
pub open spec fn valid_meta_path(mp: MetaPathView) -> bool {
    &&& valid_component(mp.0)
    &&& mp.1.len() > 0
    &&& forall|i: int|
        0 <= i < mp.1.len() ==> valid_component(#[trigger] mp.1[i].0) && valid_component(
            mp.1[i].1,
        )
}

//////////////////////////////////////////////////////////////////////////////////////////////////
// Error messages
//////////////////////////////////////////////////////////////////////////////////////////////////

pub open spec fn msg_unexpected_char(hint: Seq<char>, e: char, c: char) -> Seq<char> {
    ("Invalid syntax in "@ + hint + ": expected '"@).push(e) + "', got '"@.push(c) + "'"@
}

pub open spec fn msg_missing_char(hint: Seq<char>, e: char) -> Seq<char> {
    ("Unexpected end of input while parsing "@ + hint + " (expected '"@).push(e) + "')"@
}

pub open spec fn msg_non_letter(hint: Seq<char>, c: char) -> Seq<char> {
    ("Expected ASCII character in "@ + hint + ", got '"@).push(c) + "'"@
}

pub open spec fn msg_name_cut_off(hint: Seq<char>) -> Seq<char> {
    "Unexpected end of input in "@ + hint
}

pub open spec fn msg_empty_name(hint: Seq<char>) -> Seq<char> {
    "Empty type name in "@ + hint
}

pub open spec fn msg_bad_edge_char(c: char) -> Seq<char> {
    "Invalid character in edge type: '"@.push(c) + "'"@
}

fn unexpected_char_message(hint: &str, e: char, c: char) -> (m: String)
    ensures
        m@ == msg_unexpected_char(hint@, e, c),
{
    let mut m = String::new();
    m.append("Invalid syntax in ");
    m.append(hint);
    m.append(": expected '");
    push_char(&mut m, e);
    m.append("', got '");
    push_char(&mut m, c);
    m.append("'");
    m
}

fn missing_char_message(hint: &str, e: char) -> (m: String)
    ensures
        m@ == msg_missing_char(hint@, e),
{
    let mut m = String::new();
    m.append("Unexpected end of input while parsing ");
    m.append(hint);
    m.append(" (expected '");
    push_char(&mut m, e);
    m.append("')");
    m
}

fn non_letter_message(hint: &str, c: char) -> (m: String)
    ensures
        m@ == msg_non_letter(hint@, c),
{
    let mut m = String::new();
    m.append("Expected ASCII character in ");
    m.append(hint);
    m.append(", got '");
    push_char(&mut m, c);
    m.append("'");
    m
}

fn name_cut_off_message(hint: &str) -> (m: String)
    ensures
        m@ == msg_name_cut_off(hint@),
{
    let mut m = String::new();
    m.append("Unexpected end of input in ");
    m.append(hint);
    m
}

fn empty_name_message(hint: &str) -> (m: String)
    ensures
        m@ == msg_empty_name(hint@),
{
    let mut m = String::new();
    m.append("Empty type name in ");
    m.append(hint);
    m
}

fn bad_edge_char_message(c: char) -> (m: String)
    ensures
        m@ == msg_bad_edge_char(c),
{
    let mut m = String::new();
    m.append("Invalid character in edge type: '");
    push_char(&mut m, c);
    m.append("'");
    m
}

//////////////////////////////////////////////////////////////////////////////////////////////////
// The parser, stated over the whitespace-free characters and a position
//////////////////////////////////////////////////////////////////////////////////////////////////

/// The syntax error's detail, for a result of the parser.
pub open spec fn syntax_detail(e: MetaPathDefinitionError) -> Seq<char> {
    match e {
        MetaPathDefinitionError::InvalidSyntax { detail } => detail@,
        MetaPathDefinitionError::UnknownType { .. } => Seq::empty(),
    }
}

/// An executable result agrees with a stated one: same value, or a syntax
/// error with the stated detail.
pub open spec fn agrees<T, V>(
    r: Result<T, MetaPathDefinitionError>,
    s: Result<V, Seq<char>>,
    f: spec_fn(T) -> V,
) -> bool {
    match r {
        Ok(x) => s == Ok::<V, Seq<char>>(f(x)),
        Err(e) => e is InvalidSyntax && s == Err::<V, Seq<char>>(syntax_detail(e)),
    }
}

/// Reads one character, which must be `e`; at the end of input, fails only where `required`.
pub open spec fn spec_expect_exact(
    s: Seq<char>,
    pos: int,
    e: char,
    hint: Seq<char>,
    required: bool,
) -> (Result<bool, Seq<char>>, int) {
    if pos < s.len() {
        if s[pos] == e {
            (Ok(true), pos + 1)
        } else {
            (Err(msg_unexpected_char(hint, e, s[pos])), pos + 1)
        }
    } else if required {
        (Err(msg_missing_char(hint, e)), pos)
    } else {
        (Ok(false), pos)
    }
}

/// The first position at or after `pos` that does not hold an ASCII letter.
pub open spec fn letter_run_end(s: Seq<char>, pos: int) -> int
    decreases s.len() - pos,
{
    if 0 <= pos < s.len() && is_ascii_letter(s[pos]) {
        letter_run_end(s, pos + 1)
    } else {
        pos
    }
}

/// Reads letters up to `closer`; the name is `initial` followed by them.
pub open spec fn spec_expect_name(
    s: Seq<char>,
    pos: int,
    initial: Seq<char>,
    closer: char,
    hint: Seq<char>,
) -> (Result<Seq<char>, Seq<char>>, int) {
    let k = letter_run_end(s, pos);
    let name = initial + s.subrange(pos, k);
    if k >= s.len() {
        (Err(msg_name_cut_off(hint)), k)
    } else if s[k] == closer {
        if name.len() == 0 {
            (Err(msg_empty_name(hint)), k + 1)
        } else {
            (Ok(name), k + 1)
        }
    } else {
        (Err(msg_non_letter(hint, s[k])), k + 1)
    }
}

/// Reads a node type name after its `[`.
pub open spec fn spec_parse_node_type_name(s: Seq<char>, pos: int) -> (
    Result<ComponentView, Seq<char>>,
    int,
) {
    if pos >= s.len() {
        (Err("Unexpected end of input (expected node type name)"@), pos)
    } else if s[pos] == '*' {
        let (r, p) = spec_expect_exact(s, pos + 1, ']', "node type"@, true);
        match r {
            Ok(_) => (Ok(PathComponent::Wildcard), p),
            Err(d) => (Err(d), p),
        }
    } else if is_ascii_letter(s[pos]) {
        let (r, p) = spec_expect_name(s, pos + 1, seq![s[pos]], ']', "node type"@);
        match r {
            Ok(name) => (Ok(PathComponent::Typed(name)), p),
            Err(d) => (Err(d), p),
        }
    } else {
        (Err("Node type name must be ASCII"@), pos + 1)
    }
}

/// Reads a node type: `[`, then its name.
pub open spec fn spec_parse_node_type(s: Seq<char>, pos: int) -> (
    Result<ComponentView, Seq<char>>,
    int,
) {
    let (r, p) = spec_expect_exact(s, pos, '[', "node type"@, true);
    match r {
        Ok(_) => spec_parse_node_type_name(s, p),
        Err(d) => (Err(d), p),
    }
}

/// Reads an edge type, or nothing at the end of input where it is not `required`.
pub open spec fn spec_parse_edge_type(s: Seq<char>, pos: int, required: bool) -> (
    Result<Option<ComponentView>, Seq<char>>,
    int,
) {
    let (r, p) = spec_expect_exact(s, pos, '-', "edge type"@, required);
    match r {
        Err(d) => (Err(d), p),
        Ok(false) => (Ok(None), p),
        Ok(true) => if p >= s.len() {
            (Err("Unexpected end of input (expected edge type)"@), p)
        } else if s[p] == '>' {
            (Ok(Some(PathComponent::Wildcard)), p + 1)
        } else if s[p] == '{' {
            let (r2, p2) = spec_expect_name(s, p + 1, Seq::empty(), '}', "edge type"@);
            match r2 {
                Err(d) => (Err(d), p2),
                Ok(name) => {
                    let (r3, p3) = spec_expect_exact(s, p2, '-', "edge type"@, true);
                    match r3 {
                        Err(d) => (Err(d), p3),
                        Ok(_) => {
                            let (r4, p4) = spec_expect_exact(s, p3, '>', "edge type"@, true);
                            match r4 {
                                Err(d) => (Err(d), p4),
                                Ok(_) => (Ok(Some(PathComponent::Typed(name))), p4),
                            }
                        },
                    }
                },
            }
        } else {
            (Err(msg_bad_edge_char(s[p])), p + 1)
        },
    }
}

/// Reads steps until the input ends; the first step is required.
pub open spec fn spec_parse_steps(s: Seq<char>, pos: int, first: bool) -> Result<
    Seq<(ComponentView, ComponentView)>,
    Seq<char>,
>
    decreases s.len() - pos,
{
    let (r, p) = spec_parse_edge_type(s, pos, first);
    match r {
        Err(d) => Err(d),
        Ok(None) => Ok(Seq::empty()),
        Ok(Some(e)) => {
            let (r2, p2) = spec_parse_node_type(s, p);
            match r2 {
                Err(d) => Err(d),
                Ok(v) => if pos < p2 <= s.len() {
                    match spec_parse_steps(s, p2, false) {
                        Ok(rest) => Ok(seq![(e, v)] + rest),
                        Err(d) => Err(d),
                    }
                } else {
                    Ok(Seq::empty())
                },
            }
        },
    }
}

/// Parses whitespace-free meta-path text.
pub open spec fn spec_parse(s: Seq<char>) -> Result<MetaPathView, Seq<char>> {
    let (r, p) = spec_parse_node_type(s, 0);
    match r {
        Err(d) => Err(d),
        Ok(start) => match spec_parse_steps(s, p, true) {
            Ok(steps) => Ok((start, steps)),
            Err(d) => Err(d),
        },
    }
}

//////////////////////////////////////////////////////////////////////////////////////////////////
// Facts about positions
//////////////////////////////////////////////////////////////////////////////////////////////////

pub proof fn lemma_letter_run(s: Seq<char>, pos: int)
    requires
        0 <= pos <= s.len(),
    ensures
        pos <= letter_run_end(s, pos) <= s.len(),
        forall|i: int| pos <= i < letter_run_end(s, pos) ==> is_ascii_letter(#[trigger] s[i]),
        letter_run_end(s, pos) < s.len() ==> !is_ascii_letter(s[letter_run_end(s, pos)]),
    decreases s.len() - pos,
{
    if pos < s.len() && is_ascii_letter(s[pos]) {
        lemma_letter_run(s, pos + 1);
    }
}

pub proof fn lemma_name_positions(s: Seq<char>, pos: int, initial: Seq<char>, closer: char, hint: Seq<char>)
    requires
        0 <= pos <= s.len(),
    ensures
        pos <= spec_expect_name(s, pos, initial, closer, hint).1 <= s.len(),
        spec_expect_name(s, pos, initial, closer, hint).0 is Ok ==> pos < spec_expect_name(
            s,
            pos,
            initial,
            closer,
            hint,
        ).1,
{
    lemma_letter_run(s, pos);
}

pub proof fn lemma_node_type_positions(s: Seq<char>, pos: int)
    requires
        0 <= pos <= s.len(),
    ensures
        pos <= spec_parse_node_type(s, pos).1 <= s.len(),
        spec_parse_node_type(s, pos).0 is Ok ==> pos < spec_parse_node_type(s, pos).1,
{
    if pos < s.len() && s[pos] == '[' && pos + 1 < s.len() && s[pos + 1] != '*'
        && is_ascii_letter(s[pos + 1]) {
        lemma_name_positions(s, pos + 2, seq![s[pos + 1]], ']', "node type"@);
    }
}

pub proof fn lemma_edge_type_positions(s: Seq<char>, pos: int, required: bool)
    requires
        0 <= pos <= s.len(),
    ensures
        pos <= spec_parse_edge_type(s, pos, required).1 <= s.len(),
        spec_parse_edge_type(s, pos, required).0 matches Ok(Some(_)) ==> pos
            < spec_parse_edge_type(s, pos, required).1,
{
    if pos + 1 < s.len() && s[pos] == '-' && s[pos + 1] == '{' {
        lemma_name_positions(s, pos + 2, Seq::empty(), '}', "edge type"@);
    }
}

//////////////////////////////////////////////////////////////////////////////////////////////////
// Executable parser
//////////////////////////////////////////////////////////////////////////////////////////////////

/// Reads the character at `pos`, which must be `e`. At the end of input this
/// fails where `required` and otherwise returns `Ok(false)`.
pub fn expect_exact(
    stream: &Vec<char>,
    pos: &mut usize,
    e: char,
    hint: &str,
    required: bool,
) -> (r: Result<bool, MetaPathDefinitionError>)
    requires
        *old(pos) <= stream.len(),
    ensures
        agrees(
            r,
            spec_expect_exact(stream@, *old(pos) as int, e, hint@, required).0,
            |b: bool| b,
        ),
        *final(pos) == spec_expect_exact(stream@, *old(pos) as int, e, hint@, required).1,
{
    if *pos < stream.len() {
        let c = stream[*pos];
        *pos = *pos + 1;
        if c == e {
            Ok(true)
        } else {
            Err(MetaPathDefinitionError::InvalidSyntax { detail: unexpected_char_message(hint, e, c) })
        }
    } else if required {
        Err(MetaPathDefinitionError::InvalidSyntax { detail: missing_char_message(hint, e) })
    } else {
        Ok(false)
    }
}

/// Reads a type name: the optional `initial` letter, then letters up to `closer`.
pub fn expect_ascii_or_close(
    stream: &Vec<char>,
    pos: &mut usize,
    initial: Option<char>,
    closer: char,
    hint: &str,
) -> (r: Result<String, MetaPathDefinitionError>)
    requires
        *old(pos) <= stream.len(),
    ensures
        agrees(
            r,
            spec_expect_name(
                stream@,
                *old(pos) as int,
                match initial {
                    Some(c) => seq![c],
                    None => Seq::empty(),
                },
                closer,
                hint@,
            ).0,
            |x: String| x@,
        ),
        *final(pos) == spec_expect_name(
            stream@,
            *old(pos) as int,
            match initial {
                Some(c) => seq![c],
                None => Seq::empty(),
            },
            closer,
            hint@,
        ).1,
{
    let ghost s = stream@;
    let ghost start = *pos as int;
    let ghost init = match initial {
        Some(c) => seq![c],
        None => Seq::<char>::empty(),
    };
    let mut buffer: Vec<char> = Vec::new();
    match initial {
        Some(c) => buffer.push(c),
        None => {},
    }
    assert(buffer@ =~= init + s.subrange(start, start));
    let mut p = *pos;
    while p < stream.len() && is_ascii_alphabetic(stream[p])
        invariant
            s == stream@,
            0 <= start <= p <= stream.len(),
            buffer@ == init + s.subrange(start, p as int),
            letter_run_end(s, start) == letter_run_end(s, p as int),
        decreases stream.len() - p,
    {
        buffer.push(stream[p]);
        assert(init + s.subrange(start, p + 1) =~= (init + s.subrange(start, p as int)).push(s[p as int]));
        p = p + 1;
    }
    assert(letter_run_end(s, p as int) == p);
    if p >= stream.len() {
        *pos = p;
        return Err(MetaPathDefinitionError::InvalidSyntax { detail: name_cut_off_message(hint) });
    }
    let c = stream[p];
    *pos = p + 1;
    if c == closer {
        if buffer.len() == 0 {
            Err(MetaPathDefinitionError::InvalidSyntax { detail: empty_name_message(hint) })
        } else {
            Ok(string_from_chars(&buffer))
        }
    } else {
        Err(MetaPathDefinitionError::InvalidSyntax { detail: non_letter_message(hint, c) })
    }
}

/// Reads a node type name, after its opening `[`.
pub fn parse_node_type_name(stream: &Vec<char>, pos: &mut usize) -> (r: Result<
    PathComponent<String>,
    MetaPathDefinitionError,
>)
    requires
        *old(pos) <= stream.len(),
    ensures
        agrees(
            r,
            spec_parse_node_type_name(stream@, *old(pos) as int).0,
            |c: PathComponent<String>| component_view(c),
        ),
        *final(pos) == spec_parse_node_type_name(stream@, *old(pos) as int).1,
{
    if *pos >= stream.len() {
        return Err(
            MetaPathDefinitionError::InvalidSyntax {
                detail: "Unexpected end of input (expected node type name)".to_owned(),
            },
        );
    }
    let c = stream[*pos];
    *pos = *pos + 1;
    if c == '*' {
        match expect_exact(stream, pos, ']', "node type", true) {
            Ok(_) => Ok(PathComponent::Wildcard),
            Err(e) => Err(e),
        }
    } else if is_ascii_alphabetic(c) {
        match expect_ascii_or_close(stream, pos, Some(c), ']', "node type") {
            Ok(name) => Ok(PathComponent::Typed(name)),
            Err(e) => Err(e),
        }
    } else {
        Err(
            MetaPathDefinitionError::InvalidSyntax {
                detail: "Node type name must be ASCII".to_owned(),
            },
        )
    }
}

/// Reads a node type: `[` and the name.
pub fn parse_node_type(stream: &Vec<char>, pos: &mut usize) -> (r: Result<
    PathComponent<String>,
    MetaPathDefinitionError,
>)
    requires
        *old(pos) <= stream.len(),
    ensures
        agrees(
            r,
            spec_parse_node_type(stream@, *old(pos) as int).0,
            |c: PathComponent<String>| component_view(c),
        ),
        *final(pos) == spec_parse_node_type(stream@, *old(pos) as int).1,
{
    match expect_exact(stream, pos, '[', "node type", true) {
        Ok(_) => parse_node_type_name(stream, pos),
        Err(e) => Err(e),
    }
}

/// Reads an edge type: `->` for a wildcard or `-{name}->`. Returns `None`
/// at the end of input where the edge is not `required`.
pub fn parse_edge_type(stream: &Vec<char>, pos: &mut usize, required: bool) -> (r: Result<
    Option<PathComponent<String>>,
    MetaPathDefinitionError,
>)
    requires
        *old(pos) <= stream.len(),
    ensures
        agrees(
            r,
            spec_parse_edge_type(stream@, *old(pos) as int, required).0,
            |c: Option<PathComponent<String>>|
                match c {
                    Some(x) => Some(component_view(x)),
                    None => None,
                },
        ),
        *final(pos) == spec_parse_edge_type(stream@, *old(pos) as int, required).1,
{
    match expect_exact(stream, pos, '-', "edge type", required) {
        Err(e) => { return Err(e); },
        Ok(false) => { return Ok(None); },
        Ok(true) => {},
    }
    if *pos >= stream.len() {
        return Err(
            MetaPathDefinitionError::InvalidSyntax {
                detail: "Unexpected end of input (expected edge type)".to_owned(),
            },
        );
    }
    let c = stream[*pos];
    *pos = *pos + 1;
    if c == '>' {
        Ok(Some(PathComponent::Wildcard))
    } else if c == '{' {
        let name = match expect_ascii_or_close(stream, pos, None, '}', "edge type") {
            Ok(name) => name,
            Err(e) => { return Err(e); },
        };
        match expect_exact(stream, pos, '-', "edge type", true) {
            Ok(_) => {},
            Err(e) => { return Err(e); },
        }
        match expect_exact(stream, pos, '>', "edge type", true) {
            Ok(_) => {},
            Err(e) => { return Err(e); },
        }
        Ok(Some(PathComponent::Typed(name)))
    } else {
        Err(MetaPathDefinitionError::InvalidSyntax { detail: bad_edge_char_message(c) })
    }
}


//////////////////////////////////////////////////////////////////////////////////////////////////
// The parser reads exactly the textual forms of valid meta-paths
//////////////////////////////////////////////////////////////////////////////////////////////////

proof fn lemma_name_sound(s: Seq<char>, pos: int, initial: Seq<char>, closer: char, hint: Seq<char>)
    requires
        0 <= pos <= s.len(),
        spec_expect_name(s, pos, initial, closer, hint).0 is Ok,
    ensures
        ({
            let (r, p) = spec_expect_name(s, pos, initial, closer, hint);
            &&& pos < p <= s.len()
            &&& s[p - 1] == closer
            &&& r == Ok::<Seq<char>, Seq<char>>(initial + s.subrange(pos, p - 1))
            &&& forall|i: int| pos <= i < p - 1 ==> is_ascii_letter(#[trigger] s[i])
        }),
{
    lemma_letter_run(s, pos);
}

proof fn lemma_node_sound(s: Seq<char>, pos: int)
    requires
        0 <= pos <= s.len(),
        spec_parse_node_type(s, pos).0 is Ok,
    ensures
        ({
            let (r, p) = spec_parse_node_type(s, pos);
            &&& pos < p <= s.len()
            &&& valid_component(r->Ok_0)
            &&& s.subrange(pos, p) == render_node(r->Ok_0)
        }),
{
    let (r, p) = spec_parse_node_type(s, pos);
    if s[pos + 1] == '*' {
        assert(s.subrange(pos, p) =~= seq!['[', '*', ']']);
    } else {
        let c = s[pos + 1];
        lemma_name_sound(s, pos + 2, seq![c], ']', "node type"@);
        let name = r->Ok_0->Typed_0;
        assert(name =~= seq![c] + s.subrange(pos + 2, p - 1));
        assert forall|i: int| 0 <= i < name.len() implies is_ascii_letter(#[trigger] name[i]) by {
            if i > 0 {
                assert(name[i] == s[pos + 1 + i]);
            }
        }
        assert(s.subrange(pos, p) =~= seq!['['] + name + seq![']']);
    }
}

proof fn lemma_edge_sound(s: Seq<char>, pos: int, required: bool)
    requires
        0 <= pos <= s.len(),
        spec_parse_edge_type(s, pos, required).0 is Ok,
    ensures
        ({
            let (r, p) = spec_parse_edge_type(s, pos, required);
            match r->Ok_0 {
                None => pos == p == s.len() && !required,
                Some(c) => pos < p <= s.len() && valid_component(c) && s.subrange(pos, p)
                    == render_edge(c),
            }
        }),
{
    let (r, p) = spec_parse_edge_type(s, pos, required);
    if pos < s.len() {
        if s[pos + 1] == '>' {
            assert(s.subrange(pos, p) =~= seq!['-', '>']);
        } else {
            lemma_name_sound(s, pos + 2, Seq::empty(), '}', "edge type"@);
            let (r2, p2) = spec_expect_name(s, pos + 2, Seq::empty(), '}', "edge type"@);
            let name = r2->Ok_0;
            assert(name =~= s.subrange(pos + 2, p2 - 1));
            assert forall|i: int| 0 <= i < name.len() implies is_ascii_letter(#[trigger] name[i]) by {
                assert(name[i] == s[pos + 2 + i]);
            }
            assert(s.subrange(pos, p) =~= seq!['-', '{'] + name + seq!['}', '-', '>']);
        }
    }
}

proof fn lemma_render_steps_cons(e: ComponentView, v: ComponentView, rest: Seq<(ComponentView, ComponentView)>)
    ensures
        render_steps(seq![(e, v)] + rest) == render_edge(e) + render_node(v) + render_steps(rest),
{
    let steps = seq![(e, v)] + rest;
    assert(steps[0] == (e, v));
    assert(steps.drop_first() =~= rest);
}

#[verifier::spinoff_prover]
#[verifier::rlimit(40)]
proof fn lemma_steps_sound(s: Seq<char>, pos: int, first: bool)
    requires
        0 <= pos <= s.len(),
        spec_parse_steps(s, pos, first) is Ok,
    ensures
        ({
            let steps = spec_parse_steps(s, pos, first)->Ok_0;
            &&& render_steps(steps) == s.subrange(pos, s.len() as int)
            &&& first ==> steps.len() > 0
            &&& valid_steps(steps)
        }),
    decreases s.len() - pos,
{
    let (r, p) = spec_parse_edge_type(s, pos, first);
    lemma_edge_sound(s, pos, first);
    match r->Ok_0 {
        None => {
            assert(s.subrange(pos, s.len() as int) =~= Seq::<char>::empty());
        },
        Some(e) => {
            let (r2, p2) = spec_parse_node_type(s, p);
            lemma_node_sound(s, p);
            let v = r2->Ok_0;
            lemma_steps_sound(s, p2, false);
            let rest = spec_parse_steps(s, p2, false)->Ok_0;
            assert(valid_steps(rest));
            let steps = seq![(e, v)] + rest;
            assert(spec_parse_steps(s, pos, first) == Ok::<Seq<(ComponentView, ComponentView)>, Seq<char>>(steps));
            lemma_render_steps_cons(e, v, rest);
            assert(s.subrange(pos, s.len() as int) =~= s.subrange(pos, p) + s.subrange(p, p2)
                + s.subrange(p2, s.len() as int));
            assert forall|i: int|
                0 <= i < steps.len() implies valid_component(#[trigger] steps[i].0)
                && valid_component(steps[i].1) by {
                if i > 0 {
                    let j = i - 1;
                    assert(steps[i] == rest[j]);
                    assert(valid_component(rest[j].0) && valid_component(rest[j].1));
                } else {
                    assert(steps[i] == (e, v));
                }
            }
        },
    }
}

/// What the parser accepts is a valid meta-path, and it is the meta-path
/// whose textual form the input is.
pub proof fn lemma_parse_sound(s: Seq<char>)
    requires
        spec_parse(s) is Ok,
    ensures
        valid_meta_path(spec_parse(s)->Ok_0),
        render(spec_parse(s)->Ok_0) == s,
{
    let (r, p) = spec_parse_node_type(s, 0);
    lemma_node_sound(s, 0);
    lemma_steps_sound(s, p, true);
    assert(s =~= s.subrange(0, p) + s.subrange(p, s.len() as int));
}

proof fn lemma_letter_run_exact(s: Seq<char>, a: int, b: int)
    requires
        0 <= a <= b <= s.len(),
        forall|i: int| a <= i < b ==> is_ascii_letter(#[trigger] s[i]),
        b < s.len() ==> !is_ascii_letter(s[b]),
    ensures
        letter_run_end(s, a) == b,
    decreases b - a,
{
    if a < b {
        lemma_letter_run_exact(s, a + 1, b);
    }
}

proof fn lemma_node_complete(s: Seq<char>, pos: int, c: ComponentView)
    requires
        0 <= pos,
        pos + render_node(c).len() <= s.len(),
        valid_component(c),
        s.subrange(pos, pos + render_node(c).len()) == render_node(c),
    ensures
        spec_parse_node_type(s, pos) == (Ok::<ComponentView, Seq<char>>(c), pos + render_node(c).len()),
{
    let n = render_node(c).len();
    assert(s[pos] == s.subrange(pos, pos + n)[0]);
    match c {
        PathComponent::Wildcard => {
            assert(s[pos + 1] == s.subrange(pos, pos + n)[1]);
            assert(s[pos + 2] == s.subrange(pos, pos + n)[2]);
        },
        PathComponent::Typed(name) => {
            let m = name.len() as int;
            assert(s[pos + 1] == s.subrange(pos, pos + n)[1]);
            assert(s[pos + 1] == name[0]);
            assert forall|i: int| pos + 2 <= i < pos + 1 + m implies is_ascii_letter(#[trigger] s[i]) by {
                assert(s[i] == s.subrange(pos, pos + n)[i - pos]);
                assert(s[i] == name[i - pos - 1]);
            }
            assert(s[pos + 1 + m] == s.subrange(pos, pos + n)[1 + m]);
            lemma_letter_run_exact(s, pos + 2, pos + 1 + m);
            assert(seq![name[0]] + s.subrange(pos + 2, pos + 1 + m) =~= name) by {
                assert forall|i: int| 1 <= i < m implies s.subrange(pos + 2, pos + 1 + m)[i - 1] == name[i] by {
                    assert(s[pos + 1 + i] == s.subrange(pos, pos + n)[1 + i]);
                }
            }
        },
    }
}

proof fn lemma_edge_complete(s: Seq<char>, pos: int, c: ComponentView, required: bool)
    requires
        0 <= pos,
        pos + render_edge(c).len() <= s.len(),
        valid_component(c),
        s.subrange(pos, pos + render_edge(c).len()) == render_edge(c),
    ensures
        spec_parse_edge_type(s, pos, required) == (
            Ok::<Option<ComponentView>, Seq<char>>(Some(c)),
            pos + render_edge(c).len(),
        ),
{
    let n = render_edge(c).len();
    assert(s[pos] == s.subrange(pos, pos + n)[0]);
    assert(s[pos + 1] == s.subrange(pos, pos + n)[1]);
    match c {
        PathComponent::Wildcard => {},
        PathComponent::Typed(name) => {
            let m = name.len() as int;
            assert forall|i: int| pos + 2 <= i < pos + 2 + m implies is_ascii_letter(#[trigger] s[i]) by {
                assert(s[i] == s.subrange(pos, pos + n)[i - pos]);
                assert(s[i] == name[i - pos - 2]);
            }
            assert(s[pos + 2 + m] == s.subrange(pos, pos + n)[2 + m]);
            assert(s[pos + 3 + m] == s.subrange(pos, pos + n)[3 + m]);
            assert(s[pos + 4 + m] == s.subrange(pos, pos + n)[4 + m]);
            lemma_letter_run_exact(s, pos + 2, pos + 2 + m);
            assert(Seq::<char>::empty() + s.subrange(pos + 2, pos + 2 + m) =~= name) by {
                assert forall|i: int| 0 <= i < m implies s.subrange(pos + 2, pos + 2 + m)[i] == name[i] by {
                    assert(s[pos + 2 + i] == s.subrange(pos, pos + n)[2 + i]);
                }
            }
        },
    }
}

proof fn lemma_steps_complete(s: Seq<char>, pos: int, steps: Seq<(ComponentView, ComponentView)>, first: bool)
    requires
        0 <= pos <= s.len(),
        s.subrange(pos, s.len() as int) == render_steps(steps),
        first ==> steps.len() > 0,
        valid_steps(steps),
    ensures
        spec_parse_steps(s, pos, first) == Ok::<Seq<(ComponentView, ComponentView)>, Seq<char>>(steps),
    decreases steps.len(),
{
    if steps.len() == 0 {
        assert(pos == s.len());
        assert(steps =~= Seq::<(ComponentView, ComponentView)>::empty());
    } else {
        let (e, v) = steps[0];
        let rest = steps.drop_first();
        assert(steps =~= seq![(e, v)] + rest);
        lemma_render_steps_cons(e, v, rest);
        let ne = render_edge(e).len() as int;
        let nv = render_node(v).len() as int;
        let tail = s.subrange(pos, s.len() as int);
        assert(tail.len() == ne + nv + render_steps(rest).len());
        assert(s.subrange(pos, pos + ne) =~= tail.subrange(0, ne));
        assert(tail.subrange(0, ne) =~= render_edge(e));
        lemma_edge_complete(s, pos, e, first);
        assert(s.subrange(pos + ne, pos + ne + nv) =~= tail.subrange(ne, ne + nv));
        assert(tail.subrange(ne, ne + nv) =~= render_node(v));
        lemma_node_complete(s, pos + ne, v);
        assert(s.subrange(pos + ne + nv, s.len() as int) =~= tail.subrange(ne + nv, tail.len() as int));
        assert(tail.subrange(ne + nv, tail.len() as int) =~= render_steps(rest));
        assert forall|i: int|
            0 <= i < rest.len() implies valid_component(#[trigger] rest[i].0) && valid_component(
                rest[i].1,
            ) by {
            assert(rest[i] == steps[i + 1]);
            assert(valid_component(steps[i + 1].0) && valid_component(steps[i + 1].1));
        }
        assert(valid_steps(rest));
        lemma_steps_complete(s, pos + ne + nv, rest, false);
        assert(ne >= 2);
        assert(spec_parse_edge_type(s, pos, first).1 == pos + ne);
        assert(spec_parse_node_type(s, pos + ne).1 == pos + ne + nv);
        assert(pos < pos + ne + nv <= s.len());
    }
}

/// Every valid meta-path is read back, unchanged, from its textual form.
pub proof fn lemma_parse_complete(mp: MetaPathView)
    requires
        valid_meta_path(mp),
    ensures
        spec_parse(render(mp)) == Ok::<MetaPathView, Seq<char>>(mp),
{
    let s = render(mp);
    let n = render_node(mp.0).len() as int;
    assert(valid_steps(mp.1));
    assert(s.subrange(0, n) =~= render_node(mp.0));
    lemma_node_complete(s, 0, mp.0);
    assert(s.subrange(n, s.len() as int) =~= render_steps(mp.1));
    lemma_steps_complete(s, n, mp.1, true);
}

/// A text is rejected exactly when it is the textual form of no valid meta-path.
pub proof fn lemma_parse_rejects_only_invalid(s: Seq<char>, mp: MetaPathView)
    requires
        spec_parse(s) is Err,
        valid_meta_path(mp),
    ensures
        render(mp) != s,
{
    lemma_parse_complete(mp);
}


//////////////////////////////////////////////////////////////////////////////////////////////////
// Resolving type names to type identifiers
//////////////////////////////////////////////////////////////////////////////////////////////////

/// Whether a resolved component admits the type `x`.
pub open spec fn component_matches(c: PathComponent<usize>, x: usize) -> bool {
    match c {
        PathComponent::Typed(y) => x == y,
        PathComponent::Wildcard => true,
    }
}

impl PathComponent<usize> {
    /// A typed component admits its own type; a wildcard admits every type.
    pub fn matches(&self, x: usize) -> (r: bool)
        ensures
            r == component_matches(*self, x),
    {
        match self {
            PathComponent::Typed(y) => x == *y,
            PathComponent::Wildcard => true,
        }
    }
}

/// The component with its name replaced by the name's identifier in `names`;
/// `None` where `names` lacks the name.
pub open spec fn resolve_component(c: ComponentView, names: Seq<Seq<char>>) -> Option<
    PathComponent<usize>,
> {
    match c {
        PathComponent::Typed(n) => match position_of(names, n) {
            Some(i) => Some(PathComponent::Typed(i as usize)),
            None => None,
        },
        PathComponent::Wildcard => Some(PathComponent::Wildcard),
    }
}

pub open spec fn component_name(c: ComponentView) -> Seq<char> {
    match c {
        PathComponent::Typed(n) => n,
        PathComponent::Wildcard => Seq::empty(),
    }
}

/// The resolved steps, or the kind and name of the first type, in reading
/// order, that the tables lack.
pub open spec fn spec_resolve_steps(
    steps: Seq<(ComponentView, ComponentView)>,
    nodes: Seq<Seq<char>>,
    edges: Seq<Seq<char>>,
) -> Result<Seq<(PathComponent<usize>, PathComponent<usize>)>, (Seq<char>, Seq<char>)>
    decreases steps.len(),
{
    if steps.len() == 0 {
        Ok(Seq::empty())
    } else {
        match resolve_component(steps[0].0, edges) {
            None => Err(("edge"@, component_name(steps[0].0))),
            Some(e) => match resolve_component(steps[0].1, nodes) {
                None => Err(("node"@, component_name(steps[0].1))),
                Some(v) => match spec_resolve_steps(steps.drop_first(), nodes, edges) {
                    Ok(rest) => Ok(seq![(e, v)] + rest),
                    Err(x) => Err(x),
                },
            },
        }
    }
}

/// The resolved meta-path, or the kind and name of the first type, in
/// reading order, that the tables lack.
pub open spec fn spec_resolve(mp: MetaPathView, nodes: Seq<Seq<char>>, edges: Seq<Seq<char>>) -> Result<
    (PathComponent<usize>, Seq<(PathComponent<usize>, PathComponent<usize>)>),
    (Seq<char>, Seq<char>),
> {
    match resolve_component(mp.0, nodes) {
        None => Err(("node"@, component_name(mp.0))),
        Some(start) => match spec_resolve_steps(mp.1, nodes, edges) {
            Ok(steps) => Ok((start, steps)),
            Err(x) => Err(x),
        },
    }
}

/// An executable error is the unknown-type error with the stated kind and name.
pub open spec fn is_unknown_type(e: MetaPathDefinitionError, kind: Seq<char>, name: Seq<char>) -> bool {
    match e {
        MetaPathDefinitionError::UnknownType { kind: k, name: n } => k@ == kind && n@ == name,
        _ => false,
    }
}

impl PathComponent<String> {
    /// Replaces the type name by its identifier in `mapping`.
    pub fn maybe_resolve(&self, mapping: &TypeTable, kind: &str) -> (r: Result<
        PathComponent<usize>,
        MetaPathDefinitionError,
    >)
        requires
            mapping.wf(),
        ensures
            match resolve_component(component_view(*self), mapping@) {
                Some(c) => r == Ok::<PathComponent<usize>, MetaPathDefinitionError>(c),
                None => r matches Err(e) && is_unknown_type(
                    e,
                    kind@,
                    component_name(component_view(*self)),
                ),
            },
    {
        match self {
            PathComponent::Typed(name) => match mapping.index_of(name) {
                Some(i) => Ok(PathComponent::Typed(i)),
                None => Err(
                    MetaPathDefinitionError::UnknownType { kind: kind.to_owned(), name: name.clone() },
                ),
            },
            PathComponent::Wildcard => Ok(PathComponent::Wildcard),
        }
    }
}

impl MetaPath<usize> {
    pub open spec fn resolved_view(&self) -> (
        PathComponent<usize>,
        Seq<(PathComponent<usize>, PathComponent<usize>)>,
    ) {
        (self.start, self.steps@)
    }
}

impl MetaPath<String> {
    /// Replaces every type name by its identifier: node types from
    /// `node_types`, edge types from `edge_types`.
    pub fn resolve_types(&self, node_types: &TypeTable, edge_types: &TypeTable) -> (r: Result<
        MetaPath<usize>,
        MetaPathDefinitionError,
    >)
        requires
            node_types.wf(),
            edge_types.wf(),
        ensures
            match spec_resolve(self.view_value(), node_types@, edge_types@) {
                Ok(v) => r matches Ok(mp) && mp.resolved_view() == v,
                Err((kind, name)) => r matches Err(e) && is_unknown_type(e, kind, name),
            },
    {
        let ghost nodes = node_types@;
        let ghost edges = edge_types@;
        let ghost all = steps_view(self.steps@);
        let start = match self.start.maybe_resolve(node_types, "node") {
            Ok(c) => c,
            Err(e) => { return Err(e); },
        };
        let mut steps: Vec<(PathComponent<usize>, PathComponent<usize>)> = Vec::new();
        let mut i: usize = 0;
        assert(all.skip(0) =~= all);
        while i < self.steps.len()
            invariant
                node_types.wf(),
                edge_types.wf(),
                nodes == node_types@,
                edges == edge_types@,
                all == steps_view(self.steps@),
                resolve_component(component_view(self.start), nodes) == Some(start),
                i <= self.steps.len(),
                spec_resolve_steps(all, nodes, edges) == match spec_resolve_steps(all.skip(i as int), nodes, edges) {
                    Ok(rest) => Ok::<Seq<(PathComponent<usize>, PathComponent<usize>)>, (Seq<char>, Seq<char>)>(steps@ + rest),
                    Err(x) => Err(x),
                },
            decreases self.steps.len() - i,
        {
            let ghost tail = all.skip(i as int);
            assert(tail[0] == step_view(self.steps@[i as int]));
            assert(tail.drop_first() =~= all.skip(i + 1));
            let e = match self.steps[i].0.maybe_resolve(edge_types, "edge") {
                Ok(c) => c,
                Err(err) => { return Err(err); },
            };
            let v = match self.steps[i].1.maybe_resolve(node_types, "node") {
                Ok(c) => c,
                Err(err) => { return Err(err); },
            };
            let ghost before = steps@;
            steps.push((e, v));
            proof {
                assert forall|rest: Seq<(PathComponent<usize>, PathComponent<usize>)>|
                    before + (seq![(e, v)] + rest) == #[trigger] (steps@ + rest) by {
                    assert(before + (seq![(e, v)] + rest) =~= steps@ + rest);
                }
            }
            i = i + 1;
        }
        assert(all.skip(i as int) =~= Seq::<(ComponentView, ComponentView)>::empty());
        assert(steps@ + Seq::<(PathComponent<usize>, PathComponent<usize>)>::empty() =~= steps@);
        Ok(MetaPath { start, steps })
    }

    /// Parses a meta-path definition such as `[Author] -{writes}-> [Paper] -> [*]`.
    /// Whitespace anywhere in the pattern is ignored.
    pub fn new(pattern: &str) -> (r: Result<MetaPath<String>, MetaPathDefinitionError>)
        ensures
            agrees(
                r,
                spec_parse(strip_whitespace(pattern@)),
                |mp: MetaPath<String>| mp.view_value(),
            ),
            r matches Ok(mp) ==> valid_meta_path(mp.view_value()) && render(mp.view_value())
                == strip_whitespace(pattern@),
    {
        let stream = non_whitespace_chars(pattern);
        let ghost s = stream@;
        let mut pos: usize = 0;
        let start = match parse_node_type(&stream, &mut pos) {
            Ok(c) => c,
            Err(e) => { return Err(e); },
        };
        proof {
            lemma_node_type_positions(s, 0);
        }
        let mut steps: Vec<(PathComponent<String>, PathComponent<String>)> = Vec::new();
        let mut first = true;
        loop
            invariant
                s == stream@,
                s == strip_whitespace(pattern@),
                pos <= stream.len(),
                spec_parse(s) == match spec_parse_steps(s, pos as int, first) {
                    Ok(rest) => Ok::<MetaPathView, Seq<char>>(
                        (component_view(start), steps_view(steps@) + rest),
                    ),
                    Err(d) => Err(d),
                },
            decreases stream.len() - pos,
        {
            let ghost p0 = pos as int;
            proof {
                lemma_edge_type_positions(s, p0, first);
            }
            match parse_edge_type(&stream, &mut pos, first) {
                Err(e) => {
                    return Err(e);
                },
                Ok(None) => {
                    assert(steps_view(steps@) + Seq::empty() =~= steps_view(steps@));
                    proof {
                        lemma_parse_sound(s);
                    }
                    return Ok(MetaPath { start, steps });
                },
                Ok(Some(edge_type)) => {
                    let ghost p1 = pos as int;
                    proof {
                        lemma_node_type_positions(s, p1);
                    }
                    match parse_node_type(&stream, &mut pos) {
                        Err(e) => { return Err(e); },
                        Ok(node_type) => {
                            let ghost old_steps = steps@;
                            let ghost item = (edge_type, node_type);
                            steps.push((edge_type, node_type));
                            proof {
                                assert(steps_view(steps@) =~= steps_view(old_steps).push(
                                    step_view(item),
                                ));
                                assert forall|rest: Seq<(ComponentView, ComponentView)>|
                                    steps_view(old_steps) + (seq![step_view(item)] + rest)
                                        == #[trigger] (steps_view(steps@) + rest) by {
                                    assert(steps_view(old_steps) + (seq![step_view(item)] + rest)
                                        =~= steps_view(steps@) + rest);
                                }
                            }
                            first = false;
                        },
                    }
                },
            }
        }
    }
}

//////////////////////////////////////////////////////////////////////////////////////////////////
// Reversal and rendering
//////////////////////////////////////////////////////////////////////////////////////////////////

/// The `i`-th node type of a meta-path: its start for `i == 0`, else the
/// node type that step `i - 1` leads to.
pub open spec fn node_at(mp: MetaPathView, i: int) -> ComponentView {
    if i == 0 {
        mp.0
    } else {
        mp.1[i - 1].1
    }
}

/// The meta-path walked backwards: it starts at the last node type and takes
/// the edge types in reverse order.
pub open spec fn reverse_view(mp: MetaPathView) -> MetaPathView {
    let k = mp.1.len() as int;
    (node_at(mp, k), Seq::new(k as nat, |i: int| (mp.1[k - 1 - i].0, node_at(mp, k - 1 - i))))
}

/// Reversing a meta-path twice gives it back.
pub proof fn lemma_reverse_involution(mp: MetaPathView)
    ensures
        reverse_view(reverse_view(mp)) == mp,
{
    let k = mp.1.len() as int;
    let r = reverse_view(mp);
    assert forall|j: int| 0 <= j <= k implies #[trigger] node_at(r, j) == node_at(mp, k - j) by {}
    let rr = reverse_view(r);
    assert(rr.1.len() == k);
    assert forall|i: int| 0 <= i < k implies rr.1[i] == mp.1[i] by {
        assert(node_at(r, k - 1 - i) == node_at(mp, i + 1));
    }
    assert(rr.1 =~= mp.1);
    assert(node_at(r, k) == node_at(mp, 0));
}

/// The reverse of a valid meta-path is valid, so its text parses back to it.
pub proof fn lemma_reverse_valid(mp: MetaPathView)
    requires
        valid_meta_path(mp),
    ensures
        valid_meta_path(reverse_view(mp)),
        spec_parse(render(reverse_view(mp))) == Ok::<MetaPathView, Seq<char>>(reverse_view(mp)),
{
    let k = mp.1.len() as int;
    let r = reverse_view(mp);
    assert(valid_steps(mp.1));
    assert forall|j: int| 0 <= j <= k implies valid_component(#[trigger] node_at(mp, j)) by {
        if j > 0 {
            assert(valid_component(mp.1[j - 1].0));
            assert(valid_component(mp.1[j - 1].1));
        }
    }
    assert forall|i: int| 0 <= i < r.1.len() implies valid_component(#[trigger] r.1[i].0) && valid_component(r.1[i].1) by {
        assert(valid_component(mp.1[k - 1 - i].0));
        assert(valid_component(node_at(mp, k - 1 - i)));
        assert(r.1[i] == (mp.1[k - 1 - i].0, node_at(mp, k - 1 - i)));
    }
    assert(valid_component(node_at(mp, k)));
    lemma_parse_complete(r);
}

fn clone_component(c: &PathComponent<String>) -> (r: PathComponent<String>)
    ensures
        component_view(r) == component_view(*c),
{
    match c {
        PathComponent::Typed(name) => PathComponent::Typed(name.clone()),
        PathComponent::Wildcard => PathComponent::Wildcard,
    }
}

fn push_node(out: &mut String, c: &PathComponent<String>)
    ensures
        final(out)@ == old(out)@ + render_node(component_view(*c)),
{
    match c {
        PathComponent::Typed(name) => {
            push_char(out, '[');
            out.append(name.as_str());
            push_char(out, ']');
        },
        PathComponent::Wildcard => {
            push_char(out, '[');
            push_char(out, '*');
            push_char(out, ']');
        },
    }
    assert(final(out)@ =~= old(out)@ + render_node(component_view(*c)));
}

fn push_edge(out: &mut String, c: &PathComponent<String>)
    ensures
        final(out)@ == old(out)@ + render_edge(component_view(*c)),
{
    match c {
        PathComponent::Typed(name) => {
            push_char(out, '-');
            push_char(out, '{');
            out.append(name.as_str());
            push_char(out, '}');
            push_char(out, '-');
            push_char(out, '>');
        },
        PathComponent::Wildcard => {
            push_char(out, '-');
            push_char(out, '>');
        },
    }
    assert(final(out)@ =~= old(out)@ + render_edge(component_view(*c)));
}

proof fn lemma_render_steps_push(steps: Seq<(ComponentView, ComponentView)>, step: (ComponentView, ComponentView))
    ensures
        render_steps(steps.push(step)) == render_steps(steps) + render_edge(step.0) + render_node(step.1),
    decreases steps.len(),
{
    if steps.len() == 0 {
        assert(steps.push(step).drop_first() =~= Seq::<(ComponentView, ComponentView)>::empty());
        assert(render_steps(Seq::<(ComponentView, ComponentView)>::empty()) == Seq::<char>::empty());
        assert(steps.push(step)[0] == step);
        assert(render_steps(steps.push(step)) =~= render_edge(step.0) + render_node(step.1));
    } else {
        lemma_render_steps_push(steps.drop_first(), step);
        assert(steps.push(step).drop_first() =~= steps.drop_first().push(step));
        assert(render_steps(steps.push(step)) =~= render_edge(steps[0].0) + render_node(steps[0].1)
            + render_steps(steps.drop_first().push(step)));
        assert(render_steps(steps.push(step)) =~= render_steps(steps) + render_edge(step.0) + render_node(step.1));
    }
}

impl MetaPath<String> {
    /// The meta-path walked backwards, from its last node type to its start.
    pub fn reverse(&self) -> (r: MetaPath<String>)
        ensures
            r.view_value() == reverse_view(self.view_value()),
    {
        let ghost mp = self.view_value();
        let k = self.steps.len();
        let start = if k == 0 {
            clone_component(&self.start)
        } else {
            clone_component(&self.steps[k - 1].1)
        };
        let mut steps: Vec<(PathComponent<String>, PathComponent<String>)> = Vec::new();
        let mut i: usize = 0;
        while i < k
            invariant
                k == self.steps@.len(),
                mp == self.view_value(),
                i <= k,
                steps@.len() == i,
                forall|t: int| 0 <= t < i ==> #[trigger] step_view(steps@[t]) == reverse_view(mp).1[t],
            decreases k - i,
        {
            let j = k - 1 - i;
            let edge = clone_component(&self.steps[j].0);
            let node = if j == 0 {
                clone_component(&self.start)
            } else {
                clone_component(&self.steps[j - 1].1)
            };
            steps.push((edge, node));
            i = i + 1;
        }
        let r = MetaPath { start, steps };
        assert(r.view_value().1 =~= reverse_view(mp).1);
        r
    }

    /// The whitespace-free text of the meta-path, such as `[Author]-{writes}->[Paper]`.
    pub fn pattern(&self) -> (r: String)
        ensures
            r@ == render(self.view_value()),
    {
        let ghost mp = self.view_value();
        let mut out = String::new();
        push_node(&mut out, &self.start);
        let mut i: usize = 0;
        while i < self.steps.len()
            invariant
                mp == self.view_value(),
                i <= self.steps@.len(),
                out@ == render_node(mp.0) + render_steps(mp.1.take(i as int)),
            decreases self.steps@.len() - i,
        {
            let ghost before = out@;
            push_edge(&mut out, &self.steps[i].0);
            push_node(&mut out, &self.steps[i].1);
            proof {
                assert(mp.1.take(i + 1) =~= mp.1.take(i as int).push(mp.1[i as int]));
                lemma_render_steps_push(mp.1.take(i as int), mp.1[i as int]);
                assert(out@ =~= render_node(mp.0) + render_steps(mp.1.take(i + 1)));
            }
            i = i + 1;
        }
        assert(mp.1.take(self.steps@.len() as int) =~= mp.1);
        out
    }
}

impl std::str::FromStr for MetaPath<String> {
    type Err = MetaPathDefinitionError;

    fn from_str(s: &str) -> (r: Result<MetaPath<String>, MetaPathDefinitionError>)
        ensures
            agrees(
                r,
                spec_parse(strip_whitespace(s@)),
                |mp: MetaPath<String>| mp.view_value(),
            ),
            r matches Ok(mp) ==> valid_meta_path(mp.view_value()) && render(mp.view_value())
                == strip_whitespace(s@),
    {
        MetaPath::new(s)
    }
}

} // verus!
