//! Skills: what they hold, how they are read, and which of them a message calls
//! for.
//!
//! A skill is a directory with a `SKILL.md` file in it, and perhaps `scripts/`,
//! `references/` and `assets/`.

use crate::extensions::frontmatter;
use crate::extensions::frontmatter::{get_field, parse_yaml_frontmatter, unwrap_quotes, Field};
use crate::extensions::triggers;
use crate::extensions::triggers::extract_triggers;
use crate::text;
use crate::text::{
    cat3, chars_of, decimal, join, lowercase, same, same_ignoring_case, split, str_contains,
    text_of, trim,
};
use vstd::prelude::*;
use vstd::string::*;

verus! {

// ── Types ───────────────────────────────────────────────────────────────────

/// What kind of file comes with a skill.
#[derive(Debug, Clone, Copy, PartialEq, Eq, Structural)]
pub enum SkillResourceKind {
    Script,
    Reference,
    Asset,
    Other,
}

/// A file that comes with a skill.
#[derive(Debug)]
pub struct SkillResource {
    /// Its path below the directory of the skill.
    pub relative_path: String,
    pub absolute_path: String,
    pub kind: SkillResourceKind,
    pub size_bytes: u64,
    pub executable: bool,
}

/// A file that comes with a skill, as a value.
#[verifier::ext_equal]
pub struct ResourceView {
    pub relative_path: Seq<char>,
    pub absolute_path: Seq<char>,
    pub kind: SkillResourceKind,
    pub size_bytes: u64,
    pub executable: bool,
}

impl View for SkillResource {
    type V = ResourceView;

    open spec fn view(&self) -> ResourceView {
        ResourceView {
            relative_path: self.relative_path@,
            absolute_path: self.absolute_path@,
            kind: self.kind,
            size_bytes: self.size_bytes,
            executable: self.executable,
        }
    }
}

/// The values of the files of a skill.
pub open spec fn resource_views(v: Seq<SkillResource>) -> Seq<ResourceView> {
    v.map_values(|r: SkillResource| r@)
}

/// A skill.
#[derive(Debug)]
pub struct Skill {
    pub name: String,
    pub description: String,
    pub triggers: Vec<String>,
    pub allowed_tools: Vec<String>,
    pub hidden: bool,
    pub body: String,
    /// The path of its `SKILL.md`.
    pub path: String,
    /// The path of its directory.
    pub root: String,
    pub resources: Vec<SkillResource>,
}

/// A skill as a value.
#[verifier::ext_equal]
pub struct SkillView {
    pub name: Seq<char>,
    pub description: Seq<char>,
    pub triggers: Seq<Seq<char>>,
    pub allowed_tools: Seq<Seq<char>>,
    pub hidden: bool,
    pub body: Seq<char>,
    pub path: Seq<char>,
    pub root: Seq<char>,
    pub resources: Seq<ResourceView>,
}

impl View for Skill {
    type V = SkillView;

    open spec fn view(&self) -> SkillView {
        SkillView {
            name: self.name@,
            description: self.description@,
            triggers: text::texts(self.triggers@),
            allowed_tools: text::texts(self.allowed_tools@),
            hidden: self.hidden,
            body: self.body@,
            path: self.path@,
            root: self.root@,
            resources: resource_views(self.resources@),
        }
    }
}

/// The values of some skills.
pub open spec fn skill_views(v: Seq<Skill>) -> Seq<SkillView> {
    v.map_values(|s: Skill| s@)
}

/// The values of some borrowed skills.
pub open spec fn borrowed_views(v: Seq<&Skill>) -> Seq<SkillView> {
    v.map_values(|s: &Skill| s@)
}

// ── The prompt ──────────────────────────────────────────────────────────────

/// What the model is told of a script.
pub open spec fn script_line(r: ResourceView) -> Seq<char> {
    "- `"@ + r.relative_path + "` ("@ + (if r.executable {
        "exec"@
    } else {
        "file"@
    }) + ", "@ + text::dec(r.size_bytes as nat) + " bytes)\n  path: `"@ + r.absolute_path + "`\n"@
}

/// What the model is told of another file.
pub open spec fn file_line(r: ResourceView) -> Seq<char> {
    "- `"@ + r.relative_path + "` — `"@ + r.absolute_path + "`\n"@
}

/// What the model is told of the files of one kind among the first `n`.
pub open spec fn kind_lines(s: Seq<ResourceView>, kind: SkillResourceKind, n: int) -> Seq<char>
    decreases n,
{
    if n <= 0 {
        Seq::empty()
    } else if s[n - 1].kind == kind {
        kind_lines(s, kind, n - 1) + (if kind == SkillResourceKind::Script {
            script_line(s[n - 1])
        } else {
            file_line(s[n - 1])
        })
    } else {
        kind_lines(s, kind, n - 1)
    }
}

/// Whether there is a file of a kind.
pub open spec fn has_kind(s: Seq<ResourceView>, kind: SkillResourceKind) -> bool {
    exists|i: int| 0 <= i < s.len() && (#[trigger] s[i]).kind == kind
}

/// The heading above the files of a kind.
pub open spec fn kind_heading(kind: SkillResourceKind) -> Seq<char> {
    match kind {
        SkillResourceKind::Script => "\n### Bundled scripts (run with do_bash)\nPrefer these over rewriting logic. Use absolute paths. Make executable with `chmod +x` if needed.\n\n"@,
        SkillResourceKind::Reference => "\n### References (read with do_file_read when needed)\n"@,
        _ => "\n### Assets (templates / fixtures)\n"@,
    }
}

/// What the model is told of the files of one kind.
pub open spec fn kind_block(s: Seq<ResourceView>, kind: SkillResourceKind) -> Seq<char> {
    if has_kind(s, kind) {
        kind_heading(kind) + kind_lines(s, kind, s.len() as int)
    } else {
        Seq::empty()
    }
}

/// What the model is told of a skill.
pub open spec fn prompt_of(s: SkillView) -> Seq<char> {
    "## Active Skill: "@ + s.name + "\n\n"@ + (if s.description.len() > 0 {
        "**Description:** "@ + s.description + "\n\n"@
    } else {
        Seq::empty()
    }) + "**Skill root:** `"@ + s.root + "`\n\n"@ + s.body + "\n"@ + kind_block(
        s.resources,
        SkillResourceKind::Script,
    ) + kind_block(s.resources, SkillResourceKind::Reference) + kind_block(
        s.resources,
        SkillResourceKind::Asset,
    ) + (if s.allowed_tools.len() > 0 {
        "\n**Preferred tools:** "@ + text::joined(s.allowed_tools, ", "@) + "\n"@
    } else {
        Seq::empty()
    })
}

fn same_kind(a: SkillResourceKind, b: SkillResourceKind) -> (r: bool)
    ensures
        r == (a == b),
{
    a == b
}

fn tell_kind(resources: &Vec<SkillResource>, kind: SkillResourceKind) -> (r: String)
    ensures
        r@ == kind_block(resource_views(resources@), kind),
{
    let ghost s = resource_views(resources@);
    let n: usize = resources.len();
    let mut lines = String::new();
    let mut some = false;
    for i in 0..n
        invariant
            n == resources@.len(),
            s == resource_views(resources@),
            lines@ == kind_lines(s, kind, i as int),
            some == (exists|k: int| 0 <= k < i && (#[trigger] s[k]).kind == kind),
    {
        let r = &resources[i];
        assert(r@ == s[i as int]);
        if same_kind(r.kind, kind) {
            some = true;
            let ghost before = lines@;
            if same_kind(kind, SkillResourceKind::Script) {
                let flag: &str = if r.executable {
                    "exec"
                } else {
                    "file"
                };
                let line = cat3("- `", r.relative_path.as_str(), "` (").concat(flag).concat(
                    ", ",
                ).concat(decimal(r.size_bytes).as_str()).concat(" bytes)\n  path: `").concat(
                    r.absolute_path.as_str(),
                ).concat("`\n");
                lines.append(line.as_str());
            } else {
                let line = cat3("- `", r.relative_path.as_str(), "` — `").concat(
                    r.absolute_path.as_str(),
                ).concat("`\n");
                lines.append(line.as_str());
            }
        }
    }
    if !some {
        assert(!has_kind(s, kind));
        return String::new();
    }
    let heading: &str = match kind {
        SkillResourceKind::Script => "\n### Bundled scripts (run with do_bash)\nPrefer these over rewriting logic. Use absolute paths. Make executable with `chmod +x` if needed.\n\n",
        SkillResourceKind::Reference => "\n### References (read with do_file_read when needed)\n",
        _ => "\n### Assets (templates / fixtures)\n",
    };
    text::cat2(heading, lines.as_str())
}

impl Skill {
    /// What the model is told when the skill is called for.
    pub fn to_agent_prompt(&self) -> (r: String)
        ensures
            r@ == prompt_of(self@),
    {
        let mut out = cat3("## Active Skill: ", self.name.as_str(), "\n\n");
        if !self.description.as_str().is_empty() {
            out.append(cat3("**Description:** ", self.description.as_str(), "\n\n").as_str());
        }
        out.append("**Skill root:** `");
        out.append(self.root.as_str());
        out.append("`\n\n");
        out.append(self.body.as_str());
        out.append("\n");
        out.append(tell_kind(&self.resources, SkillResourceKind::Script).as_str());
        out.append(tell_kind(&self.resources, SkillResourceKind::Reference).as_str());
        out.append(tell_kind(&self.resources, SkillResourceKind::Asset).as_str());
        if self.allowed_tools.len() > 0 {
            out.append("\n**Preferred tools:** ");
            out.append(join(&self.allowed_tools, ", ").as_str());
            out.append("\n");
        }
        assert(out@ =~= prompt_of(self@));
        out
    }
}

// ── Reading a skill ─────────────────────────────────────────────────────────

/// What stands between triggers.
pub open spec fn between_triggers() -> spec_fn(char) -> bool {
    |c: char| c == ',' || c == ';' || c == '|' || c == '\n'
}

/// Commas.
pub open spec fn comma() -> spec_fn(char) -> bool {
    |c: char| c == ','
}

fn is_between_triggers(c: char) -> (b: bool)
    ensures
        b == between_triggers()(c),
{
    c == ',' || c == ';' || c == '|' || c == '\n'
}

fn is_comma(c: char) -> (b: bool)
    ensures
        b == comma()(c),
{
    c == ','
}

/// The first `n` parts, trimmed and without quotes, that are not empty then.
pub open spec fn bare_parts(s: Seq<Seq<char>>, n: int) -> Seq<Seq<char>>
    decreases n,
{
    if n <= 0 {
        Seq::empty()
    } else {
        let t = frontmatter::bare(text::trim_of(s[n - 1]));
        if t.len() > 0 {
            bare_parts(s, n - 1).push(t)
        } else {
            bare_parts(s, n - 1)
        }
    }
}

/// The first `n` parts, trimmed, that are not empty then.
pub open spec fn trimmed_parts(s: Seq<Seq<char>>, n: int) -> Seq<Seq<char>>
    decreases n,
{
    if n <= 0 {
        Seq::empty()
    } else {
        let t = text::trim_of(s[n - 1]);
        if t.len() > 0 {
            trimmed_parts(s, n - 1).push(t)
        } else {
            trimmed_parts(s, n - 1)
        }
    }
}

/// The triggers that a header lists.
pub open spec fn listed_triggers(field: Option<Seq<char>>) -> Seq<Seq<char>> {
    match field {
        Some(s) => {
            let parts = text::parts_of(s, between_triggers());
            bare_parts(parts, parts.len() as int)
        },
        None => Seq::empty(),
    }
}

/// The tools that a header lists.
pub open spec fn listed_tools(field: Option<Seq<char>>) -> Seq<Seq<char>> {
    match field {
        Some(s) => {
            let parts = text::parts_of(s, comma());
            trimmed_parts(parts, parts.len() as int)
        },
        None => Seq::empty(),
    }
}

/// Whether a list holds a text but for the case of ASCII letters.
pub open spec fn lists(s: Seq<Seq<char>>, t: Seq<char>) -> bool {
    exists|i: int|
        0 <= i < s.len() && text::ascii_lowered(#[trigger] s[i]) == text::ascii_lowered(t)
}

/// The triggers of a skill: those of its header, else those that its description
/// gives; and its name, where that is not among them.
pub open spec fn all_triggers(
    listed: Seq<Seq<char>>,
    fallback: Seq<Seq<char>>,
    name: Seq<char>,
) -> Seq<Seq<char>> {
    let t = if listed.len() == 0 {
        fallback
    } else {
        listed
    };
    if lists(t, name) {
        t
    } else {
        t.push(name)
    }
}

/// The name of a skill: that of its header, else that of its directory.
pub open spec fn skill_name(
    fields: Seq<frontmatter::FieldView>,
    folder: Option<Seq<char>>,
) -> Seq<char> {
    match frontmatter::field_text(fields, "name"@) {
        Some(n) => n,
        None => match folder {
            Some(f) => f,
            None => "unnamed"@,
        },
    }
}

/// A field, or nothing.
pub open spec fn field_or_empty(fields: Seq<frontmatter::FieldView>, key: Seq<char>) -> Seq<char> {
    match frontmatter::field_text(fields, key) {
        Some(s) => s,
        None => Seq::empty(),
    }
}

/// Whether the header says that the skill is hidden.
pub open spec fn says_hidden(field: Option<Seq<char>>) -> bool {
    field == Some("true"@) || field == Some("yes"@) || field == Some("1"@)
}

/// The skill that a file describes, given the triggers that its description gives.
pub open spec fn skill_of(
    fields: Seq<frontmatter::FieldView>,
    body: Seq<char>,
    fallback: Seq<Seq<char>>,
    folder: Option<Seq<char>>,
    path: Seq<char>,
    root: Seq<char>,
) -> SkillView {
    let name = skill_name(fields, folder);
    SkillView {
        name,
        description: field_or_empty(fields, "description"@),
        triggers: all_triggers(
            listed_triggers(frontmatter::field_text(fields, "triggers"@)),
            fallback,
            name,
        ),
        allowed_tools: listed_tools(
            match frontmatter::field_text(fields, "allowed-tools"@) {
                Some(s) => Some(s),
                None => frontmatter::field_text(fields, "allowed_tools"@),
            },
        ),
        hidden: says_hidden(frontmatter::field_text(fields, "hidden"@)),
        body,
        path,
        root,
        resources: Seq::empty(),
    }
}

fn read_triggers(field: &Option<String>) -> (r: Vec<String>)
    ensures
        text::texts(r@) == listed_triggers(text::opt_text(*field)),
{
    let mut r: Vec<String> = Vec::new();
    assert(text::texts(r@) =~= Seq::empty());
    if let Some(s) = field {
        let parts = split(
            chars_of(s.as_str()).as_slice(),
            is_between_triggers,
            Ghost(between_triggers()),
        );
        let ghost all = text::char_views(parts@);
        let n: usize = parts.len();
        for i in 0..n
            invariant
                n == parts@.len(),
                all == text::char_views(parts@),
                text::texts(r@) == bare_parts(all, i as int),
        {
            assert(all[i as int] == parts@[i as int]@);
            let t = unwrap_quotes(trim(parts[i].as_slice()));
            if t.len() > 0 {
                let t = text_of(t);
                proof {
                    text::lemma_texts_push(r@, t);
                }
                r.push(t);
            }
        }
    }
    r
}

fn read_tools(field: &Option<String>) -> (r: Vec<String>)
    ensures
        text::texts(r@) == listed_tools(text::opt_text(*field)),
{
    let mut r: Vec<String> = Vec::new();
    assert(text::texts(r@) =~= Seq::empty());
    if let Some(s) = field {
        let parts = split(chars_of(s.as_str()).as_slice(), is_comma, Ghost(comma()));
        let ghost all = text::char_views(parts@);
        let n: usize = parts.len();
        for i in 0..n
            invariant
                n == parts@.len(),
                all == text::char_views(parts@),
                text::texts(r@) == trimmed_parts(all, i as int),
        {
            assert(all[i as int] == parts@[i as int]@);
            let t = trim(parts[i].as_slice());
            if t.len() > 0 {
                let t = text_of(t);
                proof {
                    text::lemma_texts_push(r@, t);
                }
                r.push(t);
            }
        }
    }
    r
}

fn list_holds(v: &Vec<String>, t: &str) -> (b: bool)
    ensures
        b == lists(text::texts(v@), t@),
{
    let ghost s = text::texts(v@);
    let n: usize = v.len();
    for i in 0..n
        invariant
            n == v@.len(),
            s == text::texts(v@),
            forall|k: int|
                0 <= k < i ==> text::ascii_lowered(#[trigger] s[k]) != text::ascii_lowered(t@),
    {
        assert(s[i as int] == v@[i as int]@);
        if same_ignoring_case(v[i].as_str(), t) {
            return true;
        }
    }
    false
}

fn or_empty(o: Option<String>) -> (r: String)
    ensures
        r@ == (match o {
            Some(s) => s@,
            None => Seq::empty(),
        }),
{
    match o {
        Some(s) => s,
        None => String::new(),
    }
}

/// Puts a skill together from its file, given the triggers that its description
/// gives.
pub fn assemble_skill(
    fields: &Vec<Field>,
    body: String,
    fallback: Vec<String>,
    folder: Option<String>,
    path: &str,
    root: &str,
) -> (r: Skill)
    ensures
        r@ == skill_of(
            frontmatter::field_views(fields@),
            body@,
            text::texts(fallback@),
            text::opt_text(folder),
            path@,
            root@,
        ),
{
    let name = match get_field(fields, "name") {
        Some(n) => n,
        None => match folder {
            Some(f) => f,
            None => "unnamed".to_string(),
        },
    };
    let description = or_empty(get_field(fields, "description"));
    let listed = read_triggers(&get_field(fields, "triggers"));
    let mut chosen = if listed.len() == 0 {
        fallback
    } else {
        listed
    };
    if !list_holds(&chosen, name.as_str()) {
        let copy = name.clone();
        proof {
            text::lemma_texts_push(chosen@, copy);
        }
        chosen.push(copy);
    }
    let tools = match get_field(fields, "allowed-tools") {
        Some(s) => Some(s),
        None => get_field(fields, "allowed_tools"),
    };
    let allowed_tools = read_tools(&tools);
    let hidden = match get_field(fields, "hidden") {
        Some(s) => same(s.as_str(), "true") || same(s.as_str(), "yes") || same(s.as_str(), "1"),
        None => false,
    };
    let resources: Vec<SkillResource> = Vec::new();
    assert(resource_views(resources@) =~= Seq::empty());
    Skill {
        name,
        description,
        triggers: chosen,
        allowed_tools,
        hidden,
        body,
        path: path.to_string(),
        root: root.to_string(),
        resources,
    }
}

/// Reads a skill from the content of its file, the name of its directory, and the
/// paths of both.
pub fn parse_file(content: &str, folder: Option<String>, path: &str, root: &str) -> (r: Result<
    Skill,
    String,
>)
    ensures
        match frontmatter::file_of(content@) {
            frontmatter::FileView::Parts(fields, body) => r matches Ok(s) && s@ == skill_of(
                fields,
                body,
                triggers::triggers_of(field_or_empty(fields, "description"@)),
                text::opt_text(folder),
                path@,
                root@,
            ),
            frontmatter::FileView::Unclosed => r matches Err(e) && e@ == "Unclosed frontmatter"@,
        },
{
    match parse_yaml_frontmatter(content) {
        Ok((fields, body)) => {
            let description = or_empty(get_field(&fields, "description"));
            let fallback = extract_triggers(description.as_str());
            Ok(assemble_skill(&fields, body, fallback, folder, path, root))
        },
        Err(e) => Err(e),
    }
}

// ── Which skills a message calls for ────────────────────────────────────────

/// Whether one of the triggers stands in a message, all in lower case.
pub open spec fn trigger_stands(low: Seq<char>, triggers: Seq<Seq<char>>) -> bool {
    exists|i: int| 0 <= i < triggers.len() && text::has_part(low, #[trigger] triggers[i])
}

/// Whether a message calls for a skill, all in lower case: the skill is not hidden,
/// and its name or one of its triggers stands in the message.
pub open spec fn calls_for(
    low: Seq<char>,
    hidden: bool,
    name: Seq<char>,
    triggers: Seq<Seq<char>>,
) -> bool {
    !hidden && (text::has_part(low, name) || trigger_stands(low, triggers))
}

/// The first `n` triggers in lower case, without those that are empty.
pub open spec fn lowered_triggers(s: Seq<Seq<char>>, n: int) -> Seq<Seq<char>>
    decreases n,
{
    if n <= 0 {
        Seq::empty()
    } else if s[n - 1].len() > 0 {
        lowered_triggers(s, n - 1).push(text::lowered(s[n - 1]))
    } else {
        lowered_triggers(s, n - 1)
    }
}

/// Whether a message, given in lower case, calls for a skill.
pub open spec fn matches_skill(low: Seq<char>, s: SkillView) -> bool {
    calls_for(
        low,
        s.hidden,
        text::lowered(s.name),
        lowered_triggers(s.triggers, s.triggers.len() as int),
    )
}

/// The bytes of the longest of the first `n` triggers.
pub open spec fn longest(triggers: Seq<Seq<char>>, n: int) -> nat
    decreases n,
{
    if n <= 0 {
        0
    } else {
        let b = vstd::utf8::encode_utf8(triggers[n - 1]).len();
        if b > longest(triggers, n - 1) {
            b
        } else {
            longest(triggers, n - 1)
        }
    }
}

/// How specific a skill is: the bytes of its longest trigger.
pub open spec fn weight(s: SkillView) -> nat {
    longest(s.triggers, s.triggers.len() as int)
}

/// Where a skill of weight `w` goes among the first `n` skills, ordered by weight:
/// behind those that weigh as much or more.
pub open spec fn place_for(s: Seq<SkillView>, w: nat, n: int) -> int
    decreases n,
{
    if n <= 0 {
        0
    } else if weight(s[n - 1]) >= w {
        n
    } else {
        place_for(s, w, n - 1)
    }
}

/// The skills that a message calls for among the first `n`, the most specific
/// first, and those that are equally so in their order.
pub open spec fn matching(skills: Seq<SkillView>, low: Seq<char>, n: int) -> Seq<SkillView>
    decreases n,
{
    if n <= 0 {
        Seq::empty()
    } else {
        let front = matching(skills, low, n - 1);
        let s = skills[n - 1];
        if matches_skill(low, s) {
            front.insert(place_for(front, weight(s), front.len() as int), s)
        } else {
            front
        }
    }
}

proof fn lemma_place(s: Seq<SkillView>, w: nat, n: int)
    requires
        0 <= n <= s.len(),
    ensures
        0 <= place_for(s, w, n) <= n,
        forall|i: int| place_for(s, w, n) <= i < n ==> weight(#[trigger] s[i]) < w,
        place_for(s, w, n) > 0 ==> weight(s[place_for(s, w, n) - 1]) >= w,
    decreases n,
{
    if n > 0 && weight(s[n - 1]) < w {
        lemma_place(s, w, n - 1);
    }
}

fn any_trigger_stands(low: &str, triggers: &Vec<String>) -> (b: bool)
    ensures
        b == trigger_stands(low@, text::texts(triggers@)),
{
    let ghost s = text::texts(triggers@);
    let n: usize = triggers.len();
    for i in 0..n
        invariant
            n == triggers@.len(),
            s == text::texts(triggers@),
            forall|k: int| 0 <= k < i ==> !text::has_part(low@, #[trigger] s[k]),
    {
        assert(s[i as int] == triggers@[i as int]@);
        if str_contains(low, triggers[i].as_str()) {
            assert(trigger_stands(low@, s));
            return true;
        }
    }
    false
}

/// Whether a message calls for a skill, given all of it in lower case.
pub fn message_calls_for(low: &str, hidden: bool, name: &str, triggers: &Vec<String>) -> (b: bool)
    ensures
        b == calls_for(low@, hidden, name@, text::texts(triggers@)),
{
    !hidden && (str_contains(low, name) || any_trigger_stands(low, triggers))
}

fn skill_matches(low: &str, s: &Skill) -> (b: bool)
    ensures
        b == matches_skill(low@, s@),
{
    let ghost t = s@.triggers;
    let n: usize = s.triggers.len();
    let mut triggers: Vec<String> = Vec::new();
    assert(text::texts(triggers@) =~= lowered_triggers(t, 0));
    for i in 0..n
        invariant
            n == s.triggers@.len(),
            t == text::texts(s.triggers@),
            text::texts(triggers@) == lowered_triggers(t, i as int),
    {
        assert(t[i as int] == s.triggers@[i as int]@);
        if !s.triggers[i].as_str().is_empty() {
            let l = lowercase(s.triggers[i].as_str());
            proof {
                text::lemma_texts_push(triggers@, l);
            }
            triggers.push(l);
        }
    }
    message_calls_for(low, s.hidden, lowercase(s.name.as_str()).as_str(), &triggers)
}

fn skill_weight(s: &Skill) -> (r: usize)
    ensures
        r == weight(s@),
{
    let ghost t = s@.triggers;
    let n: usize = s.triggers.len();
    let mut best: usize = 0;
    for i in 0..n
        invariant
            n == s.triggers@.len(),
            t == text::texts(s.triggers@),
            best == longest(t, i as int),
    {
        assert(t[i as int] == s.triggers@[i as int]@);
        let bytes = s.triggers[i].as_str().as_bytes();
        let b: usize = bytes.len();
        if b > best {
            best = b;
        }
    }
    best
}

// ── The loader ──────────────────────────────────────────────────────────────

/// A collection of skills.
#[derive(Debug)]
pub struct SkillLoader {
    pub skills: Vec<Skill>,
}

impl View for SkillLoader {
    type V = Seq<SkillView>;

    open spec fn view(&self) -> Seq<SkillView> {
        skill_views(self.skills@)
    }
}

/// What loading has come to.
#[verifier::ext_equal]
pub struct Loaded {
    pub skills: Seq<SkillView>,
    /// The names so far, in lower case.
    pub names: Seq<Seq<char>>,
    /// The directories so far.
    pub roots: Seq<Seq<char>>,
    pub total: nat,
}

/// Takes a skill whose name in lower case is `key`. By name, a name that was seen
/// keeps its first skill.
pub open spec fn taken(l: Loaded, s: SkillView, key: Seq<char>, by_name: bool) -> Loaded {
    if l.roots.contains(s.root) {
        l
    } else {
        let next = Loaded { roots: l.roots.push(s.root), ..l };
        if !by_name {
            Loaded { skills: l.skills.push(s), total: l.total + 1, ..next }
        } else if l.names.contains(key) {
            next
        } else {
            Loaded {
                skills: l.skills.push(s),
                names: l.names.push(key),
                total: l.total + 1,
                ..next
            }
        }
    }
}

/// What loading the first `n` found skills comes to.
pub open spec fn loaded(
    base: Seq<SkillView>,
    found: Seq<SkillView>,
    by_name: bool,
    n: int,
) -> Loaded
    decreases n,
{
    if n <= 0 {
        Loaded { skills: base, names: Seq::empty(), roots: Seq::empty(), total: 0 }
    } else {
        taken(
            loaded(base, found, by_name, n - 1),
            found[n - 1],
            text::lowered(found[n - 1].name),
            by_name,
        )
    }
}

/// Loading in progress.
#[derive(Debug)]
pub struct SkillMerge {
    skills: Vec<Skill>,
    names: Vec<String>,
    roots: Vec<String>,
    total: usize,
}

impl View for SkillMerge {
    type V = Loaded;

    closed spec fn view(&self) -> Loaded {
        Loaded {
            skills: skill_views(self.skills@),
            names: text::texts(self.names@),
            roots: text::texts(self.roots@),
            total: self.total as nat,
        }
    }
}

fn lists_text(v: &Vec<String>, t: &str) -> (b: bool)
    ensures
        b == text::texts(v@).contains(t@),
{
    let ghost s = text::texts(v@);
    let n: usize = v.len();
    for i in 0..n
        invariant
            n == v@.len(),
            s == text::texts(v@),
            forall|k: int| 0 <= k < i ==> (#[trigger] s[k]) != t@,
    {
        assert(s[i as int] == v@[i as int]@);
        if same(v[i].as_str(), t) {
            return true;
        }
    }
    false
}

impl SkillMerge {
    /// Loading on top of some skills.
    pub fn new(base: Vec<Skill>) -> (r: Self)
        ensures
            r@ == (Loaded {
                skills: skill_views(base@),
                names: Seq::empty(),
                roots: Seq::empty(),
                total: 0,
            }),
    {
        let r = SkillMerge { skills: base, names: Vec::new(), roots: Vec::new(), total: 0 };
        assert(r@.names =~= Seq::empty());
        assert(r@.roots =~= Seq::empty());
        r
    }

    /// Takes a skill whose name in lower case is `key`.
    pub fn take(&mut self, skill: Skill, key: String, by_name: bool)
        requires
            old(self)@.total < usize::MAX,
        ensures
            final(self)@ == taken(old(self)@, skill@, key@, by_name),
    {
        let ghost l = self@;
        if lists_text(&self.roots, skill.root.as_str()) {
            return;
        }
        let root = skill.root.clone();
        proof {
            text::lemma_texts_push(self.roots@, root);
            text::lemma_texts_push(self.names@, key);
            assert(skill_views(self.skills@.push(skill)) =~= l.skills.push(skill@));
        }
        self.roots.push(root);
        if by_name {
            if lists_text(&self.names, key.as_str()) {
                return;
            }
            self.names.push(key);
        }
        self.skills.push(skill);
        self.total = self.total + 1;
    }
}

proof fn lemma_total(base: Seq<SkillView>, found: Seq<SkillView>, by_name: bool, n: int)
    requires
        0 <= n <= found.len(),
    ensures
        loaded(base, found, by_name, n).total <= n,
    decreases n,
{
    if n > 0 {
        lemma_total(base, found, by_name, n - 1);
    }
}

impl SkillLoader {
    /// No skills.
    pub fn new() -> (r: Self)
        ensures
            r@ == Seq::<SkillView>::empty(),
    {
        let r = SkillLoader { skills: Vec::new() };
        assert(r@ =~= Seq::empty());
        r
    }

    fn load_all_inner(&mut self, found: Vec<Skill>, by_name: bool) -> (r: usize)
        ensures
            final(self)@ == loaded(
                old(self)@,
                skill_views(found@),
                by_name,
                found@.len() as int,
            ).skills,
            r == loaded(old(self)@, skill_views(found@), by_name, found@.len() as int).total,
    {
        let ghost base = self@;
        let ghost s = skill_views(found@);
        let n: usize = found.len();
        let mut skills: Vec<Skill> = Vec::new();
        std::mem::swap(&mut skills, &mut self.skills);
        let mut merge = SkillMerge::new(skills);
        let mut i: usize = 0;
        for f in it: found
            invariant
                it.seq() == found@,
                i == it.index(),
                n == found@.len(),
                s == skill_views(found@),
                merge@ == loaded(base, s, by_name, i as int),
        {
            proof {
                assert(f == found@[i as int]);
                assert(s[i as int] == f@);
                lemma_total(base, s, by_name, i as int);
            }
            let key = lowercase(f.name.as_str());
            merge.take(f, key, by_name);
            i = i + 1;
        }
        self.skills = merge.skills;
        merge.total
    }

    /// Takes the skills that were found along the search paths, in their order. Of
    /// those with the same name the first wins.
    pub fn load_all(&mut self, found: Vec<Skill>) -> (r: usize)
        ensures
            final(self)@ == loaded(old(self)@, skill_views(found@), true, found@.len() as int).skills,
            r == loaded(old(self)@, skill_views(found@), true, found@.len() as int).total,
    {
        self.load_all_inner(found, true)
    }

    /// Takes every skill that was found along the search paths, those with the same
    /// name too.
    pub fn load_all_packages(&mut self, found: Vec<Skill>) -> (r: usize)
        ensures
            final(self)@ == loaded(
                old(self)@,
                skill_views(found@),
                false,
                found@.len() as int,
            ).skills,
            r == loaded(old(self)@, skill_views(found@), false, found@.len() as int).total,
    {
        self.load_all_inner(found, false)
    }

    /// The skills that a message calls for, the most specific first.
    pub fn find_matching(&self, message: &str) -> (r: Vec<&Skill>)
        ensures
            borrowed_views(r@) == matching(
                self@,
                text::lowered(message@),
                self@.len() as int,
            ),
    {
        let low = lowercase(message);
        let ghost s = self@;
        let n: usize = self.skills.len();
        let mut r: Vec<&Skill> = Vec::new();
        assert(borrowed_views(r@) =~= matching(s, low@, 0));
        for i in 0..n
            invariant
                n == self.skills@.len(),
                s == skill_views(self.skills@),
                low@ == text::lowered(message@),
                borrowed_views(r@) == matching(s, low@, i as int),
        {
            assert(s[i as int] == self.skills@[i as int]@);
            let skill = &self.skills[i];
            if skill_matches(low.as_str(), skill) {
                let w: usize = skill_weight(skill);
                let ghost front = borrowed_views(r@);
                let m: usize = r.len();
                let mut k: usize = m;
                while k > 0 && skill_weight(r[k - 1]) < w
                    invariant
                        k <= m == r@.len(),
                        front == borrowed_views(r@),
                        place_for(front, w as nat, m as int) == place_for(
                            front,
                            w as nat,
                            k as int,
                        ),
                    decreases k,
                {
                    assert(front[k - 1] == r@[k - 1]@);
                    k = k - 1;
                }
                proof {
                    if k > 0 {
                        assert(front[k - 1] == r@[k - 1]@);
                    }
                    assert(k == place_for(front, w as nat, m as int));
                }
                r.insert(k, skill);
                assert(borrowed_views(r@) =~= front.insert(k as int, skill@));
            }
        }
        r
    }

    /// The skill with exactly this name.
    pub fn find_by_name(&self, name: &str) -> (r: Option<&Skill>)
        ensures
            match r {
                Some(s) => exists|i: int|
                    0 <= i < self@.len() && #[trigger] self@[i] == s@ && s@.name == name@ && forall|
                        k: int,
                    |
                        0 <= k < i ==> (#[trigger] self@[k]).name != name@,
                None => forall|k: int| 0 <= k < self@.len() ==> (#[trigger] self@[k]).name != name@,
            },
    {
        let n: usize = self.skills.len();
        for i in 0..n
            invariant
                n == self.skills@.len(),
                forall|k: int| 0 <= k < i ==> (#[trigger] self@[k]).name != name@,
        {
            let skill = &self.skills[i];
            assert(self@[i as int] == skill@);
            if same(skill.name.as_str(), name) {
                return Some(skill);
            }
        }
        None
    }

    /// The skills that are not hidden.
    pub fn list_visible(&self) -> (r: Vec<&Skill>)
        ensures
            borrowed_views(r@) == self@.filter(|s: SkillView| !s.hidden),
    {
        let ghost s = self@;
        let ghost p = |s: SkillView| !s.hidden;
        let n: usize = self.skills.len();
        let mut r: Vec<&Skill> = Vec::new();
        proof {
            reveal(Seq::filter);
            assert(borrowed_views(r@) =~= s.take(0).filter(p));
        }
        for i in 0..n
            invariant
                n == self.skills@.len(),
                s == skill_views(self.skills@),
                p == |s: SkillView| !s.hidden,
                borrowed_views(r@) == s.take(i as int).filter(p),
        {
            let skill = &self.skills[i];
            proof {
                text::lemma_filter_take(s, i as int, p);
                assert(s[i as int] == skill@);
            }
            if !skill.hidden {
                assert(borrowed_views(r@.push(skill)) =~= borrowed_views(r@).push(skill@));
                r.push(skill);
            }
        }
        assert(s.take(n as int) =~= s);
        r
    }

    /// All skills.
    pub fn list_all(&self) -> (r: &Vec<Skill>)
        ensures
            skill_views(r@) == self@,
    {
        &self.skills
    }

    /// Whether there are no skills.
    pub fn is_empty(&self) -> (b: bool)
        ensures
            b == (self@.len() == 0),
    {
        self.skills.len() == 0
    }
}

// ── Laws ────────────────────────────────────────────────────────────────────

/// What a message calls for is not hidden and is one of the skills, and the more
/// specific skills come first.
pub proof fn law_matching_is_ordered(skills: Seq<SkillView>, low: Seq<char>, n: int)
    requires
        0 <= n <= skills.len(),
    ensures
        forall|i: int|
            0 <= i < matching(skills, low, n).len() ==> matches_skill(
                low,
                #[trigger] matching(skills, low, n)[i],
            ) && !matching(skills, low, n)[i].hidden && skills.contains(
                matching(skills, low, n)[i],
            ),
        forall|i: int, j: int|
            0 <= i < j < matching(skills, low, n).len() ==> weight(
                #[trigger] matching(skills, low, n)[i],
            ) >= weight(#[trigger] matching(skills, low, n)[j]),
    decreases n,
{
    if n > 0 {
        law_matching_is_ordered(skills, low, n - 1);
        let front = matching(skills, low, n - 1);
        let s = skills[n - 1];
        let w = weight(s);
        let p = place_for(front, w, front.len() as int);
        lemma_place(front, w, front.len() as int);
        let all = matching(skills, low, n);
        if matches_skill(low, s) {
            assert forall|i: int| 0 <= i < all.len() implies matches_skill(low, #[trigger] all[i])
                && !all[i].hidden && skills.contains(all[i]) by {
                if i < p {
                    assert(all[i] == front[i]);
                } else if i == p {
                    assert(skills[n - 1] == all[i]);
                } else {
                    assert(all[i] == front[i - 1]);
                }
            }
            assert forall|i: int, j: int| 0 <= i < j < all.len() implies weight(#[trigger] all[i])
                >= weight(#[trigger] all[j]) by {
                if j < p {
                    assert(all[i] == front[i] && all[j] == front[j]);
                } else if j == p {
                    assert(all[i] == front[i]);
                    if i < p - 1 {
                        assert(weight(front[i]) >= weight(front[p - 1]));
                    }
                } else if i == p {
                    assert(all[j] == front[j - 1]);
                } else if i < p {
                    assert(all[i] == front[i] && all[j] == front[j - 1]);
                } else {
                    assert(all[i] == front[i - 1] && all[j] == front[j - 1]);
                }
            }
        }
    }
}

/// Loading by name onto nothing never keeps two skills with the same name, whatever
/// the case of their letters.
pub proof fn law_loaded_names_are_unique(found: Seq<SkillView>, n: int)
    requires
        0 <= n <= found.len(),
    ensures
        ({
            let l = loaded(Seq::empty(), found, true, n);
            &&& l.names.len() == l.skills.len() == l.total
            &&& forall|i: int|
                0 <= i < l.names.len() ==> (#[trigger] l.names[i]) == text::lowered(
                    l.skills[i].name,
                )
            &&& l.names.no_duplicates()
        }),
    decreases n,
{
    if n > 0 {
        law_loaded_names_are_unique(found, n - 1);
        let b = loaded(Seq::empty(), found, true, n - 1);
        let l = loaded(Seq::empty(), found, true, n);
        assert forall|i: int| 0 <= i < l.names.len() implies (#[trigger] l.names[i])
            == text::lowered(l.skills[i].name) by {
            if i < b.names.len() {
                assert(l.names[i] == b.names[i]);
            }
        }
        assert forall|i: int, j: int| 0 <= i < j < l.names.len() implies l.names[i] != l.names[j] by {
            assert(l.names[i] == b.names[i]);
            if j < b.names.len() {
                assert(l.names[j] == b.names[j]);
            }
        }
    }
}

/// The names that loading has seen are those of the skills so far, where no two
/// come from the same directory; so are the directories.
proof fn lemma_seen(base: Seq<SkillView>, found: Seq<SkillView>, n: int)
    requires
        0 <= n <= found.len(),
        forall|i: int, j: int|
            0 <= i < j < found.len() ==> (#[trigger] found[i]).root != (#[trigger] found[j]).root,
    ensures
        forall|r: Seq<char>| #[trigger]
            loaded(base, found, true, n).roots.contains(r) ==> exists|i: int|
                0 <= i < n && #[trigger] found[i].root == r,
        forall|key: Seq<char>| #[trigger]
            loaded(base, found, true, n).names.contains(key) <==> exists|i: int|
                0 <= i < n && text::lowered(#[trigger] found[i].name) == key,
    decreases n,
{
    let l = loaded(base, found, true, n);
    if n > 0 {
        lemma_seen(base, found, n - 1);
        let b = loaded(base, found, true, n - 1);
        let last = found[n - 1];
        let mine = text::lowered(last.name);
        assert(!b.roots.contains(last.root));
        assert forall|r: Seq<char>| #[trigger] l.roots.contains(r) implies exists|i: int|
            0 <= i < n && #[trigger] found[i].root == r by {
            if b.roots.contains(r) {
                let i = choose|i: int| 0 <= i < n - 1 && #[trigger] found[i].root == r;
                assert(found[i].root == r);
            } else {
                assert(found[n - 1].root == r);
            }
        }
        assert forall|key: Seq<char>|
            #[trigger] l.names.contains(key) <==> exists|i: int|
                0 <= i < n && text::lowered(#[trigger] found[i].name) == key by {
            if l.names.contains(key) {
                if b.names.contains(key) {
                    let i = choose|i: int|
                        0 <= i < n - 1 && text::lowered(#[trigger] found[i].name) == key;
                    assert(text::lowered(found[i].name) == key);
                } else {
                    assert(key == mine);
                    assert(text::lowered(found[n - 1].name) == key);
                }
            }
            if exists|i: int| 0 <= i < n && text::lowered(#[trigger] found[i].name) == key {
                let i = choose|i: int|
                    0 <= i < n && text::lowered(#[trigger] found[i].name) == key;
                if i < n - 1 {
                    assert(b.names.contains(key));
                    let k = choose|k: int| 0 <= k < b.names.len() && b.names[k] == key;
                    assert(l.names[k] == key);
                } else if b.names.contains(mine) {
                    assert(l.names == b.names);
                } else {
                    assert(l.names.last() == key);
                }
            }
        }
    }
}

/// Loading takes nothing back: what is loaded stays where it is as more is found, so
/// a package further down the search paths never replaces one from further up.
pub proof fn law_loaded_skills_stay(
    base: Seq<SkillView>,
    found: Seq<SkillView>,
    by_name: bool,
    n: int,
    m: int,
)
    requires
        0 <= n <= m <= found.len(),
    ensures
        loaded(base, found, by_name, n).skills.is_prefix_of(
            loaded(base, found, by_name, m).skills,
        ),
    decreases m,
{
    let l = loaded(base, found, by_name, n).skills;
    if n < m {
        law_loaded_skills_stay(base, found, by_name, n, m - 1);
        let b = loaded(base, found, by_name, m - 1).skills;
        let r = loaded(base, found, by_name, m).skills;
        assert(r.take(b.len() as int) =~= b);
        assert(l =~= r.subrange(0, l.len() as int)) by {
            assert(l =~= b.subrange(0, l.len() as int));
            assert forall|i: int| 0 <= i < l.len() implies r[i] == l[i] by {
                assert(r[i] == r.take(b.len() as int)[i]);
                assert(b.subrange(0, l.len() as int)[i] == b[i]);
            }
        }
    } else {
        assert(l =~= l.subrange(0, l.len() as int));
    }
}

/// The first skill of a name wins: of skills from different directories, one is
/// loaded exactly where none before it has its name, whatever the case of the
/// letters.
pub proof fn law_first_of_a_name_wins(base: Seq<SkillView>, found: Seq<SkillView>, n: int)
    requires
        0 < n <= found.len(),
        forall|i: int, j: int|
            0 <= i < j < found.len() ==> (#[trigger] found[i]).root != (#[trigger] found[j]).root,
    ensures
        loaded(base, found, true, n).skills == (if exists|j: int|
            0 <= j < n - 1 && text::lowered(#[trigger] found[j].name)
                == text::lowered(found[n - 1].name) {
            loaded(base, found, true, n - 1).skills
        } else {
            loaded(base, found, true, n - 1).skills.push(found[n - 1])
        }),
{
    lemma_seen(base, found, n - 1);
}

/// Every skill that a message calls for is found.
pub proof fn law_matching_is_complete(skills: Seq<SkillView>, low: Seq<char>, n: int, i: int)
    requires
        0 <= i < n <= skills.len(),
        matches_skill(low, skills[i]),
    ensures
        matching(skills, low, n).contains(skills[i]),
    decreases n,
{
    let front = matching(skills, low, n - 1);
    let all = matching(skills, low, n);
    let s = skills[n - 1];
    if matches_skill(low, s) {
        let p = place_for(front, weight(s), front.len() as int);
        lemma_place_in(front, weight(s), front.len() as int);
        assert(all[p] == s);
        if i < n - 1 {
            law_matching_is_complete(skills, low, n - 1, i);
            let k = choose|k: int| 0 <= k < front.len() && front[k] == skills[i];
            assert(all[if k < p {
                k
            } else {
                k + 1
            }] == skills[i]);
        }
    } else {
        law_matching_is_complete(skills, low, n - 1, i);
    }
}

proof fn lemma_place_in(s: Seq<SkillView>, w: nat, n: int)
    requires
        0 <= n <= s.len(),
    ensures
        0 <= place_for(s, w, n) <= n,
    decreases n,
{
    if n > 0 {
        lemma_place_in(s, w, n - 1);
    }
}

proof fn lemma_lowered_triggers(s: Seq<Seq<char>>, n: int, t: Seq<char>)
    requires
        0 <= n <= s.len(),
    ensures
        lowered_triggers(s, n).contains(t) <==> exists|i: int|
            0 <= i < n && (#[trigger] s[i]).len() > 0 && text::lowered(s[i]) == t,
    decreases n,
{
    if n > 0 {
        lemma_lowered_triggers(s, n - 1, t);
        let front = lowered_triggers(s, n - 1);
        let all = lowered_triggers(s, n);
        if front.contains(t) {
            let k = choose|k: int| 0 <= k < front.len() && front[k] == t;
            assert(all[k] == t);
        }
        if s[n - 1].len() > 0 && text::lowered(s[n - 1]) == t {
            assert(all[all.len() - 1] == t);
        }
        if all.contains(t) {
            let k = choose|k: int| 0 <= k < all.len() && all[k] == t;
            if k < front.len() {
                assert(front[k] == t);
            }
        }
    }
}

/// A message calls for a skill exactly where the skill is not hidden and its name or one of
/// its triggers stands in the message, in whatever case.
pub proof fn law_trigger_calls_for_its_skill(low: Seq<char>, s: SkillView)
    ensures
        matches_skill(low, s) <==> !s.hidden && (text::has_part(low, text::lowered(s.name))
            || exists|i: int|
            0 <= i < s.triggers.len() && (#[trigger] s.triggers[i]).len() > 0 && text::has_part(
                low,
                text::lowered(s.triggers[i]),
            )),
{
    let n = s.triggers.len() as int;
    let all = lowered_triggers(s.triggers, n);
    if trigger_stands(low, all) {
        let k = choose|k: int| 0 <= k < all.len() && text::has_part(low, #[trigger] all[k]);
        lemma_lowered_triggers(s.triggers, n, all[k]);
        let i = choose|i: int|
            0 <= i < n && (#[trigger] s.triggers[i]).len() > 0 && text::lowered(s.triggers[i])
                == all[k];
        assert(text::has_part(low, text::lowered(s.triggers[i])));
    }
    if exists|i: int|
        0 <= i < s.triggers.len() && (#[trigger] s.triggers[i]).len() > 0 && text::has_part(
            low,
            text::lowered(s.triggers[i]),
        ) {
        let i = choose|i: int|
            0 <= i < s.triggers.len() && (#[trigger] s.triggers[i]).len() > 0 && text::has_part(
                low,
                text::lowered(s.triggers[i]),
            );
        let t = text::lowered(s.triggers[i]);
        lemma_lowered_triggers(s.triggers, n, t);
        let k = choose|k: int| 0 <= k < all.len() && all[k] == t;
        assert(text::has_part(low, all[k]));
    }
}

/// The model is told a skill by its name, with its whole body and the place it stands in.
#[verifier::rlimit(40)]
pub proof fn law_skill_is_told_whole(s: SkillView)
    ensures
        text::starts(prompt_of(s), "## Active Skill: "@ + s.name),
        text::has_part(prompt_of(s), s.body),
        text::has_part(prompt_of(s), "**Skill root:** `"@ + s.root),
        s.description.len() > 0 ==> text::has_part(
            prompt_of(s),
            "**Description:** "@ + s.description,
        ),
{
    let none = Seq::<char>::empty();
    let t = prompt_of(s);
    let a = "## Active Skill: "@ + s.name;
    let nl = "\n\n"@;
    let d = if s.description.len() > 0 {
        "**Description:** "@ + s.description + nl
    } else {
        none
    };
    let r = "**Skill root:** `"@ + s.root;
    let q = "`\n\n"@;
    let z = "\n"@ + kind_block(s.resources, SkillResourceKind::Script) + kind_block(
        s.resources,
        SkillResourceKind::Reference,
    ) + kind_block(s.resources, SkillResourceKind::Asset) + (if s.allowed_tools.len() > 0 {
        "\n**Preferred tools:** "@ + text::joined(s.allowed_tools, ", "@) + "\n"@
    } else {
        none
    });
    assert(t =~= a + nl + d + r + q + s.body + z);
    assert(text::starts(t, a)) by {
        text::lemma_part_at(none, a, nl + d + r + q + s.body + z);
        assert(none + a + (nl + d + r + q + s.body + z) =~= t);
    }
    assert(text::has_part(t, s.body)) by {
        text::lemma_part_at(a + nl + d + r + q, s.body, z);
    }
    assert(text::has_part(t, r)) by {
        text::lemma_part_at(a + nl + d, r, q + s.body + z);
        assert(a + nl + d + r + (q + s.body + z) =~= t);
    }
    if s.description.len() > 0 {
        let e = "**Description:** "@ + s.description;
        text::lemma_part_at(a + nl, e, nl + r + q + s.body + z);
        assert(a + nl + e + (nl + r + q + s.body + z) =~= t);
    }
}

/// Every file that belongs to a skill is told with its path, under its kind.
pub proof fn law_resources_are_told(s: Seq<ResourceView>, kind: SkillResourceKind, n: int, i: int)
    requires
        0 <= i < n <= s.len(),
        s[i].kind == kind,
    ensures
        text::has_part(
            kind_lines(s, kind, n),
            if kind == SkillResourceKind::Script {
                script_line(s[i])
            } else {
                file_line(s[i])
            },
        ),
        text::has_part(script_line(s[i]), s[i].absolute_path),
        text::has_part(file_line(s[i]), s[i].absolute_path),
    decreases n,
{
    let none = Seq::<char>::empty();
    let line = if kind == SkillResourceKind::Script {
        script_line(s[i])
    } else {
        file_line(s[i])
    };
    let p = s[i].absolute_path;
    assert(text::has_part(script_line(s[i]), p)) by {
        let head = "- `"@ + s[i].relative_path + "` ("@ + (if s[i].executable {
            "exec"@
        } else {
            "file"@
        }) + ", "@ + text::dec(s[i].size_bytes as nat) + " bytes)\n  path: `"@;
        text::lemma_part_at(head, p, "`\n"@);
    }
    assert(text::has_part(file_line(s[i]), p)) by {
        text::lemma_part_at("- `"@ + s[i].relative_path + "` — `"@, p, "`\n"@);
    }
    let front = kind_lines(s, kind, n - 1);
    if i == n - 1 {
        text::lemma_part_at(front, line, none);
        assert(front + line + none =~= kind_lines(s, kind, n));
    } else {
        law_resources_are_told(s, kind, n - 1, i);
        if s[n - 1].kind == kind {
            let last = if kind == SkillResourceKind::Script {
                script_line(s[n - 1])
            } else {
                file_line(s[n - 1])
            };
            text::lemma_part_of_part(none, front, last, line);
            assert(none + front + last =~= kind_lines(s, kind, n));
        }
    }
}

proof fn lemma_trimmed_all(s: Seq<Seq<char>>, n: int)
    requires
        0 <= n <= s.len(),
        forall|i: int| 0 <= i < s.len() ==> (#[trigger] s[i]).len() > 0 && text::is_tight(s[i]),
    ensures
        trimmed_parts(s, n) == s.take(n),
    decreases n,
{
    if n > 0 {
        lemma_trimmed_all(s, n - 1);
        let none = Seq::<char>::empty();
        assert(s[n - 1].len() > 0 && text::is_tight(s[n - 1]));
        text::law_trim_takes_whitespace(none, s[n - 1], none);
        assert(none + s[n - 1] + none =~= s[n - 1]);
        assert(s.take(n) =~= s.take(n - 1).push(s[n - 1]));
    } else {
        assert(s.take(0) =~= Seq::<Seq<char>>::empty());
    }
}

/// Tools that are listed with commas between them are read as listed.
pub proof fn law_listed_tools_read_back(tools: Seq<Seq<char>>)
    requires
        tools.len() > 0,
        forall|i: int| 0 <= i < tools.len() ==> (#[trigger] tools[i]).len() > 0 && text::is_tight(tools[i]),
        forall|i: int, k: int|
            0 <= i < tools.len() && 0 <= k < tools[i].len() ==> #[trigger] tools[i][k] != ',',
    ensures
        listed_tools(Some(text::joined(tools, seq![',']))) == tools,
{
    assert forall|i: int, k: int| 0 <= i < tools.len() && 0 <= k < tools[i].len() implies !comma()(
        #[trigger] tools[i][k],
    ) by {
        assert(tools[i][k] != ',');
    }
    text::law_parts_read_back(tools, ',', comma());
    lemma_trimmed_all(tools, tools.len() as int);
    assert(tools.take(tools.len() as int) =~= tools);
}

/// The triggers of a skill are the listed ones, in order, or where none are listed those
/// that its description gives; and its name is always among them, in whatever case.
pub proof fn law_name_is_a_trigger(
    listed: Seq<Seq<char>>,
    fallback: Seq<Seq<char>>,
    name: Seq<char>,
)
    ensures
        ({
            let all = all_triggers(listed, fallback, name);
            &&& lists(all, name)
            &&& listed.len() > 0 ==> listed.is_prefix_of(all)
            &&& listed.len() == 0 ==> fallback.is_prefix_of(all)
            &&& forall|i: int|
                0 <= i < all.len() ==> listed.contains(#[trigger] all[i]) || fallback.contains(all[i])
                    || all[i] == name
        }),
{
    let all = all_triggers(listed, fallback, name);
    let t = if listed.len() == 0 {
        fallback
    } else {
        listed
    };
    assert(t =~= all.subrange(0, t.len() as int));
    if !lists(t, name) {
        assert(all[t.len() as int] == name);
    }
    assert forall|i: int| 0 <= i < all.len() implies listed.contains(#[trigger] all[i])
        || fallback.contains(all[i]) || all[i] == name by {
        if i < t.len() {
            assert(t[i] == all[i]);
            assert(t.contains(all[i]));
        }
    }
}

/// A skill is what its file says: its name, or the folder it lies in where it has none, its
/// description, and its body as it stands.
pub proof fn law_skill_is_what_its_file_says(
    fields: Seq<frontmatter::FieldView>,
    body: Seq<char>,
    fallback: Seq<Seq<char>>,
    folder: Option<Seq<char>>,
    path: Seq<char>,
    root: Seq<char>,
)
    ensures
        ({
            let s = skill_of(fields, body, fallback, folder, path, root);
            &&& s.body == body
            &&& s.path == path
            &&& s.root == root
            &&& frontmatter::field_text(fields, "name"@) matches Some(n) ==> s.name == n
            &&& frontmatter::field_text(fields, "name"@) is None && folder is Some ==> s.name
                == folder->0
            &&& frontmatter::field_text(fields, "description"@) matches Some(d) ==> s.description == d
            &&& frontmatter::field_text(fields, "description"@) is None ==> s.description.len() == 0
            &&& lists(s.triggers, s.name)
            &&& frontmatter::field_text(fields, "hidden"@) is None ==> !s.hidden
        }),
{
    law_name_is_a_trigger(
        listed_triggers(frontmatter::field_text(fields, "triggers"@)),
        fallback,
        skill_name(fields, folder),
    );
}

/// A skill weighs as much as its longest trigger has bytes.
pub proof fn law_longest_trigger_weighs(triggers: Seq<Seq<char>>, n: int)
    requires
        0 <= n <= triggers.len(),
    ensures
        forall|i: int|
            0 <= i < n ==> vstd::utf8::encode_utf8(#[trigger] triggers[i]).len() <= longest(
                triggers,
                n,
            ),
        n > 0 ==> exists|i: int|
            0 <= i < n && vstd::utf8::encode_utf8(#[trigger] triggers[i]).len() == longest(
                triggers,
                n,
            ),
    decreases n,
{
    if n > 0 {
        law_longest_trigger_weighs(triggers, n - 1);
        let b = vstd::utf8::encode_utf8(triggers[n - 1]).len();
        if b > longest(triggers, n - 1) {
            assert(vstd::utf8::encode_utf8(triggers[n - 1]).len() == longest(triggers, n));
        } else if n - 1 > 0 {
            let i = choose|i: int|
                0 <= i < n - 1 && vstd::utf8::encode_utf8(#[trigger] triggers[i]).len() == longest(
                    triggers,
                    n - 1,
                );
            assert(vstd::utf8::encode_utf8(triggers[i]).len() == longest(triggers, n));
        } else {
            assert(vstd::utf8::encode_utf8(triggers[0]).len() == longest(triggers, n));
        }
    }
}

} // verus!
