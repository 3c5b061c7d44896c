//! The decisions of the form that edits an agent profile: which tools it
//! offers, how the chosen ones change, and when the form is refused.
use vstd::prelude::*;
use vstd::string::*;

use crate::forms::{blank, create_or_update, is_blank, FormSubmit};
use crate::oidc::{trimmed, trimmed_copy};

verus! {

/// A tool of the catalog: its technical name and the label shown.
#[derive(Clone, Debug)]
pub struct ToolOption {
    pub name: String,
    pub label: String,
}

/// The technical names of `v`.
pub open spec fn texts_of(v: Seq<String>) -> Seq<Seq<char>> {
    v.map_values(|s: String| s@)
}

/// The tools of `catalog` whose name is not among `selected`, in the order
/// of the catalog, as (name, label).
pub open spec fn offered(catalog: Seq<ToolOption>, selected: Seq<Seq<char>>) -> Seq<(Seq<char>, Seq<char>)>
    decreases catalog.len(),
{
    if catalog.len() == 0 {
        seq![]
    } else {
        let rest = offered(catalog.drop_last(), selected);
        let t = catalog.last();
        if selected.contains(t.name@) {
            rest
        } else {
            rest.push((t.name@, t.label@))
        }
    }
}

/// Whether `name` is among `list`.
fn holds_name(list: &Vec<String>, name: &String) -> (r: bool)
    ensures
        r == texts_of(list@).contains(name@),
{
    let mut i: usize = 0;
    while i < list.len()
        invariant
            0 <= i <= list@.len(),
            forall|k: int| 0 <= k < i ==> list@[k]@ != name@,
        decreases list@.len() - i,
    {
        if list[i] == *name {
            assert(texts_of(list@)[i as int] == name@);
            return true;
        }
        i = i + 1;
    }
    proof {
        if texts_of(list@).contains(name@) {
            let k = choose|k: int| 0 <= k < texts_of(list@).len() && texts_of(list@)[k] == name@;
            assert(list@[k]@ == name@);
        }
    }
    false
}

/// The tools that the form offers to add: those of the catalog not chosen
/// yet, in the order of the catalog.
pub fn offered_tools(catalog: &Vec<ToolOption>, selected: &Vec<String>) -> (r: Vec<ToolOption>)
    ensures
        r@.map_values(|t: ToolOption| (t.name@, t.label@)) == offered(catalog@, texts_of(selected@)),
{
    let mut r: Vec<ToolOption> = Vec::new();
    let mut i: usize = 0;
    while i < catalog.len()
        invariant
            0 <= i <= catalog@.len(),
            r@.map_values(|t: ToolOption| (t.name@, t.label@)) == offered(catalog@.take(i as int), texts_of(selected@)),
        decreases catalog@.len() - i,
    {
        let tool = &catalog[i];
        assert(catalog@.take(i + 1).drop_last() =~= catalog@.take(i as int));
        if !holds_name(selected, &tool.name) {
            let ghost before = r@;
            r.push(ToolOption { name: tool.name.clone(), label: tool.label.clone() });
            assert(r@.map_values(|t: ToolOption| (t.name@, t.label@)) =~= before.map_values(
                |t: ToolOption| (t.name@, t.label@),
            ).push((tool.name@, tool.label@)));
        }
        i = i + 1;
    }
    assert(catalog@.take(catalog@.len() as int) =~= catalog@);
    r
}

/// The tool that the form proposes to add: `pending` while it is still on
/// offer, the first tool offered otherwise; unchanged when nothing is
/// offered.
pub fn proposed_tool(offered: &Vec<ToolOption>, pending: String) -> (r: String)
    ensures
        offered@.len() == 0 ==> r@ == pending@,
        offered@.len() > 0 && (exists|k: int| 0 <= k < offered@.len() && offered@[k].name@ == pending@) ==> r@ == pending@,
        offered@.len() > 0 && !(exists|k: int| 0 <= k < offered@.len() && offered@[k].name@ == pending@) ==> r@
            == offered@[0].name@,
{
    if offered.len() == 0 {
        return pending;
    }
    let mut i: usize = 0;
    while i < offered.len()
        invariant
            0 <= i <= offered@.len(),
            forall|k: int| 0 <= k < i ==> offered@[k].name@ != pending@,
        decreases offered@.len() - i,
    {
        if offered[i].name == pending {
            return pending;
        }
        i = i + 1;
    }
    offered[0].name.clone()
}

/// Adds `tool` to the chosen tools, unless it is empty or already chosen.
pub fn add_tool(list: &mut Vec<String>, tool: String)
    ensures
        (tool@.len() == 0 || texts_of(old(list)@).contains(tool@)) ==> texts_of(final(list)@) == texts_of(old(list)@),
        !(tool@.len() == 0 || texts_of(old(list)@).contains(tool@)) ==> texts_of(final(list)@) == texts_of(
            old(list)@,
        ).push(tool@),
{
    if tool.as_str().unicode_len() == 0 || holds_name(list, &tool) {
        return;
    }
    let ghost before = list@;
    list.push(tool);
    assert(texts_of(list@) =~= texts_of(before).push(tool@));
}

/// The chosen tools without `tool`, every occurrence of it removed.
pub open spec fn without_name(v: Seq<Seq<char>>, name: Seq<char>) -> Seq<Seq<char>> {
    v.filter(|s: Seq<char>| s != name)
}

/// Removes `tool` from the chosen tools.
pub fn remove_tool(list: &mut Vec<String>, tool: &String)
    ensures
        texts_of(final(list)@) == without_name(texts_of(old(list)@), tool@),
{
    let mut kept: Vec<String> = Vec::new();
    let mut i: usize = 0;
    while i < list.len()
        invariant
            0 <= i <= list@.len(),
            texts_of(kept@) == without_name(texts_of(list@.take(i as int)), tool@),
        decreases list@.len() - i,
    {
        let ghost before = kept@;
        assert(texts_of(list@.take(i + 1)) =~= texts_of(list@.take(i as int)).push(list@[i as int]@));
        proof {
            texts_of(list@.take(i as int)).lemma_filter_push(list@[i as int]@, |s: Seq<char>| s != tool@);
        }
        if list[i] != *tool {
            kept.push(list[i].clone());
            assert(texts_of(kept@) =~= texts_of(before).push(list@[i as int]@));
        }
        i = i + 1;
    }
    assert(list@.take(list@.len() as int) =~= list@);
    *list = kept;
}

/// The label shown for a chosen tool: that of the catalog, or its name when
/// the catalog does not list it.
pub fn tool_label(catalog: &Vec<ToolOption>, name: &String) -> (r: String)
    ensures
        (exists|k: int| 0 <= k < catalog@.len() && catalog@[k].name@ == name@) ==> exists|k: int|
            0 <= k < catalog@.len() && catalog@[k].name@ == name@ && r@ == catalog@[k].label@ && forall|j: int|
                0 <= j < k ==> catalog@[j].name@ != name@,
        !(exists|k: int| 0 <= k < catalog@.len() && catalog@[k].name@ == name@) ==> r@ == name@,
{
    let mut i: usize = 0;
    while i < catalog.len()
        invariant
            0 <= i <= catalog@.len(),
            forall|k: int| 0 <= k < i ==> catalog@[k].name@ != name@,
        decreases catalog@.len() - i,
    {
        if catalog[i].name == *name {
            return catalog[i].label.clone();
        }
        i = i + 1;
    }
    name.clone()
}

/// Why the profile form cannot be sent, if it cannot: its technical name
/// and its label are both required, white space not counting.
pub fn profile_form_error(name: &str, display_name: &str) -> (r: Option<String>)
    ensures
        r is Some <==> blank(name@) || blank(display_name@),
        r matches Some(m) ==> m@ == "L'identifiant technique et le libellé sont obligatoires."@,
{
    if is_blank(name) || is_blank(display_name) {
        Some(String::from_str("L'identifiant technique et le libellé sont obligatoires."))
    } else {
        None
    }
}

/// `c` is an ASCII digit.
pub open spec fn is_digit(c: char) -> bool {
    '0' <= c <= '9'
}

/// The number that the ASCII digits `s` write in decimal.
pub open spec fn digits_value(s: Seq<char>) -> int
    decreases s.len(),
{
    if s.len() == 0 {
        0
    } else {
        digits_value(s.drop_last()) * 10 + (s.last() as int - '0' as int)
    }
}

/// `s` without its sign, if it starts with one.
pub open spec fn unsigned_part(s: Seq<char>) -> Seq<char> {
    if s.len() > 0 && (s[0] == '-' || s[0] == '+') {
        s.drop_first()
    } else {
        s
    }
}

/// Every character of `s` is an ASCII digit.
pub open spec fn all_digits(s: Seq<char>) -> bool {
    forall|i: int| 0 <= i < s.len() ==> is_digit(#[trigger] s[i])
}

/// What `str::parse::<i32>` reads from `s`: an optional `+` or `-` sign,
/// then at least one ASCII digit and nothing else, for a number within the
/// range of `i32`; nothing otherwise.
pub open spec fn i32_of_text(s: Seq<char>) -> Option<int> {
    let body = unsigned_part(s);
    if body.len() == 0 || !all_digits(body) {
        None
    } else {
        let v = if s[0] == '-' {
            -digits_value(body)
        } else {
            digits_value(body)
        };
        if i32::MIN <= v <= i32::MAX {
            Some(v)
        } else {
            None
        }
    }
}

/// The most steps that a profile's agent takes, as the form reads it: the
/// number written in the field, white space around it left out, or 8 when
/// the field holds no such number.
pub open spec fn steps_of_text(raw: Seq<char>) -> i32 {
    match i32_of_text(trimmed(raw)) {
        Some(v) => v as i32,
        None => 8,
    }
}

/// The most steps that a profile's agent takes, as the form reads it: see
/// [`steps_of_text`].
pub fn max_steps_of(raw: &str) -> (n: i32)
    ensures
        n == steps_of_text(raw@),
{
    let t = trimmed_copy(raw);
    let s = t.as_str();
    let len = s.unicode_len();
    if len == 0 {
        return 8;
    }
    let first = s.get_char(0);
    let signed = first == '-' || first == '+';
    let start: usize = if signed { 1 } else { 0 };
    let ghost body = if signed { s@.drop_first() } else { s@ };
    if start == len {
        return 8;
    }
    assert(body =~= s@.skip(start as int));
    let mut i: usize = start;
    let mut acc: u64 = 0;
    let mut over = false;
    assert(body.take(0) =~= Seq::<char>::empty());
    while i < len
        invariant
            len == s@.len(),
            s@ == t@,
            t@ == trimmed(raw@),
            len > 0,
            first == s@[0],
            signed == (first == '-' || first == '+'),
            start == (if signed { 1usize } else { 0usize }),
            body == (if signed { s@.drop_first() } else { s@ }),
            start < len,
            start <= i <= len,
            body == s@.skip(start as int),
            forall|k: int| 0 <= k < i - start ==> is_digit(#[trigger] body[k]),
            !over ==> acc == digits_value(body.take(i - start)) && acc <= 2147483648,
            over ==> digits_value(body.take(i - start)) > 2147483648,
        decreases len - i,
    {
        let c = s.get_char(i);
        assert(c == body[i - start]);
        if !('0' <= c && c <= '9') {
            assert(!is_digit(body[i - start]));
            assert(body == unsigned_part(s@));
            assert(!all_digits(body));
            return 8;
        }
        let d = (c as u64) - ('0' as u64);
        assert(body.take(i - start + 1).drop_last() =~= body.take(i - start));
        if !over {
            let next = acc * 10 + d;
            if next > 2147483648 {
                over = true;
            } else {
                acc = next;
            }
        }
        i = i + 1;
    }
    assert(body.take(i - start) =~= body);
    assert(body == unsigned_part(s@));
    assert(all_digits(body));
    if over {
        return 8;
    }
    if first == '-' {
        (0 - (acc as i64)) as i32
    } else if acc <= 2147483647 {
        acc as i32
    } else {
        8
    }
}

/// The fields of an agent profile.
#[derive(Debug)]
pub struct AgentProfileFields {
    pub name: String,
    pub display_name: String,
    pub system_prompt: String,
    pub tool_names: Vec<String>,
    pub max_steps: i32,
}

/// Sending the form of an agent profile; `editing` is the profile being
/// edited. The name and the label are required; the step count is read by
/// [`max_steps_of`].
pub fn agent_profile_submit(
    editing: Option<String>,
    name: String,
    display_name: String,
    system_prompt: String,
    tool_names: Vec<String>,
    max_steps: &str,
) -> (r: FormSubmit<AgentProfileFields>)
    ensures
        r is Refused <==> blank(name@) || blank(display_name@),
        r matches FormSubmit::Refused(m) ==> m@ == "L'identifiant technique et le libellé sont obligatoires."@,
        !(r is Refused) ==> r == create_or_update(
            editing,
            AgentProfileFields {
                name,
                display_name,
                system_prompt,
                tool_names,
                max_steps: steps_of_text(max_steps@),
            },
        ),
{
    match profile_form_error(name.as_str(), display_name.as_str()) {
        Some(m) => FormSubmit::Refused(m),
        None => {
            let fields = AgentProfileFields {
                name,
                display_name,
                system_prompt,
                tool_names,
                max_steps: max_steps_of(max_steps),
            };
            match editing {
                Some(id) => FormSubmit::Update(id, fields),
                None => FormSubmit::Create(fields),
            }
        },
    }
}

} // verus!
