//! What an element is, from what the accessibility service says of it.

use vstd::prelude::*;
use vstd::string::*;

use crate::strings::same_text;
#[allow(unused_imports)]
use crate::strings::string_rows;

verus! {

/// A rectangle on the screen.
#[derive(Debug, Clone, Copy, PartialEq, Eq, Structural)]
pub struct Bounds {
    pub x: i32,
    pub y: i32,
    pub w: i32,
    pub h: i32,
}

/// One actionable element.
#[derive(Debug)]
pub struct Entity {
    pub name: String,
    pub control_type: String,
    pub automation_id: String,
    /// Full rect is rarely what a caller needs, so it rides along only in
    /// verbose mode. `click_at` is the useful part.
    pub bounds: Option<Bounds>,
    /// Centre point, precomputed so callers never do coordinate maths.
    pub click_at: (i32, i32),
    pub actions: Vec<String>,
    pub enabled: bool,
    /// Child-index chain from the window root.
    pub path: Vec<u32>,
}

/// An [`Entity`] with the characters of its strings.
#[verifier::ext_equal]
pub struct EntityView {
    pub name: Seq<char>,
    pub control_type: Seq<char>,
    pub automation_id: Seq<char>,
    pub bounds: Option<Bounds>,
    pub click_at: (i32, i32),
    pub actions: Seq<Seq<char>>,
    pub enabled: bool,
    pub path: Seq<u32>,
}

impl View for Entity {
    type V = EntityView;

    open spec fn view(&self) -> EntityView {
        EntityView {
            name: self.name@,
            control_type: self.control_type@,
            automation_id: self.automation_id@,
            bounds: self.bounds,
            click_at: self.click_at,
            actions: string_rows(self.actions@),
            enabled: self.enabled,
            path: self.path@,
        }
    }
}

/// Copies a child-index chain.
pub(crate) fn copy_path(p: &Vec<u32>) -> (r: Vec<u32>)
    ensures
        r@ == p@,
{
    let r = p.clone();
    assert(r@ =~= p@);
    r
}

/// Copies a list of strings.
pub(crate) fn copy_strings(v: &Vec<String>) -> (r: Vec<String>)
    ensures
        string_rows(r@) == string_rows(v@),
{
    let mut out: Vec<String> = Vec::new();
    for i in 0..v.len()
        invariant
            string_rows(out@) == string_rows(v@.take(i as int)),
    {
        let ghost before = string_rows(out@);
        out.push(v[i].clone());
        assert(string_rows(out@) =~= before.push(v@[i as int]@));
        assert(string_rows(v@.take(i + 1)) =~= before.push(v@[i as int]@));
    }
    assert(v@.take(v@.len() as int) =~= v@);
    out
}

impl Entity {
    /// A copy of the entity.
    pub fn duplicate(&self) -> (r: Entity)
        ensures
            r@ == self@,
    {
        Entity {
            name: self.name.clone(),
            control_type: self.control_type.clone(),
            automation_id: self.automation_id.clone(),
            bounds: self.bounds,
            click_at: self.click_at,
            actions: copy_strings(&self.actions),
            enabled: self.enabled,
            path: copy_path(&self.path),
        }
    }
}

/// What the accessibility service says of an element.
#[derive(Debug)]
pub struct Probe {
    pub role: String,
    /// The actions that the element itself offers.
    pub native: Vec<String>,
    pub value_settable: bool,
    pub expanded_settable: bool,
    pub selected_settable: bool,
    pub focused_settable: bool,
    pub title: String,
    pub description: String,
    pub help: String,
    pub value: String,
    pub identifier: String,
    pub bounds: Option<Bounds>,
    /// Published only by things that can be greyed out.
    pub enabled: Option<bool>,
}

/// The plain name of an accessibility role. A role without one keeps its own.
pub open spec fn role_name(role: Seq<char>) -> Seq<char> {
    if role == "AXButton"@ {
        "button"@
    } else if role == "AXTextField"@ || role == "AXTextArea"@ || role == "AXComboBox"@ {
        "edit"@
    } else if role == "AXCheckBox"@ {
        "check box"@
    } else if role == "AXRadioButton"@ {
        "radio button"@
    } else if role == "AXMenuItem"@ {
        "menu item"@
    } else if role == "AXMenuBar"@ {
        "menu bar"@
    } else if role == "AXWindow"@ {
        "window"@
    } else if role == "AXTabGroup"@ {
        "tab"@
    } else if role == "AXLink"@ {
        "link"@
    } else if role == "AXRow"@ {
        "row"@
    } else if role == "AXStaticText"@ {
        "text"@
    } else {
        role
    }
}

/// The plain name of an accessibility role.
pub fn plain_role(role: &str) -> (r: String)
    ensures
        r@ == role_name(role@),
{
    let name = if same_text(role, "AXButton") {
        "button"
    } else if same_text(role, "AXTextField") || same_text(role, "AXTextArea") || same_text(
        role,
        "AXComboBox",
    ) {
        "edit"
    } else if same_text(role, "AXCheckBox") {
        "check box"
    } else if same_text(role, "AXRadioButton") {
        "radio button"
    } else if same_text(role, "AXMenuItem") {
        "menu item"
    } else if same_text(role, "AXMenuBar") {
        "menu bar"
    } else if same_text(role, "AXWindow") {
        "window"
    } else if same_text(role, "AXTabGroup") {
        "tab"
    } else if same_text(role, "AXLink") {
        "link"
    } else if same_text(role, "AXRow") {
        "row"
    } else if same_text(role, "AXStaticText") {
        "text"
    } else {
        role
    };
    name.to_string()
}

/// A list with one entry where a condition holds, and none where it does not.
pub open spec fn given(b: bool, action: Seq<char>) -> Seq<Seq<char>> {
    if b {
        seq![action]
    } else {
        Seq::<Seq<char>>::empty()
    }
}

/// The actions that can be taken on an element: only those that the element
/// itself supports.
pub open spec fn supported(p: Probe) -> Seq<Seq<char>> {
    let role = role_name(p.role@);
    let presses = string_rows(p.native@).contains("AXPress"@);
    let raises = string_rows(p.native@).contains("AXRaise"@);
    let types = p.focused_settable || role == "window"@;
    given(presses, "click"@) + given(role == "edit"@ && p.value_settable, "type"@) + given(
        p.expanded_settable,
        "expand"@,
    ) + given(p.selected_settable, "select"@) + given(
        role == "check box"@ && presses,
        "toggle"@,
    ) + given(raises, "raise"@) + given(types, "key"@) + given(types, "type_keys"@)
}

/// The first of four texts that is not empty.
pub open spec fn first_given(a: Seq<char>, b: Seq<char>, c: Seq<char>, d: Seq<char>) -> Seq<char> {
    if a.len() > 0 {
        a
    } else if b.len() > 0 {
        b
    } else if c.len() > 0 {
        c
    } else {
        d
    }
}

/// Half of a length, rounded toward zero.
pub open spec fn half(n: int) -> int {
    if n >= 0 {
        n / 2
    } else {
        -((-n) / 2)
    }
}

/// The centre of a rectangle.
pub open spec fn centre(b: Bounds) -> (int, int) {
    (b.x + half(b.w as int), b.y + half(b.h as int))
}

/// Whether the centre of a rectangle has screen coordinates.
pub open spec fn has_centre(b: Bounds) -> bool {
    i32::MIN <= centre(b).0 <= i32::MAX && i32::MIN <= centre(b).1 <= i32::MAX
}

/// Whether the centre of a rectangle has screen coordinates.
pub fn centre_fits(b: Bounds) -> (r: bool)
    ensures
        r == has_centre(b),
{
    let x: i64 = b.x as i64 + if b.w >= 0 {
        b.w as i64 / 2
    } else {
        -((-(b.w as i64)) / 2)
    };
    let y: i64 = b.y as i64 + if b.h >= 0 {
        b.h as i64 / 2
    } else {
        -((-(b.h as i64)) / 2)
    };
    i32::MIN as i64 <= x && x <= i32::MAX as i64 && i32::MIN as i64 <= y && y <= i32::MAX as i64
}

/// The centre of a rectangle.
pub fn centre_of(b: Bounds) -> (r: (i32, i32))
    requires
        has_centre(b),
    ensures
        (r.0 as int, r.1 as int) == centre(b),
{
    let hw: i32 = if b.w >= 0 {
        b.w / 2
    } else {
        (-((-(b.w as i64)) / 2)) as i32
    };
    let hh: i32 = if b.h >= 0 {
        b.h / 2
    } else {
        (-((-(b.h as i64)) / 2)) as i32
    };
    (b.x + hw, b.y + hh)
}

fn offers(native: &Vec<String>, action: &str) -> (r: bool)
    ensures
        r == string_rows(native@).contains(action@),
{
    let ghost rows = string_rows(native@);
    for i in 0..native.len()
        invariant
            rows == string_rows(native@),
            forall|j: int| 0 <= j < i ==> rows[j] != action@,
    {
        assert(rows[i as int] == native@[i as int]@);
        if same_text(native[i].as_str(), action) {
            return true;
        }
    }
    assert(!rows.contains(action@));
    false
}

fn add_if(out: &mut Vec<String>, b: bool, action: &str)
    ensures
        string_rows(final(out)@) == string_rows(old(out)@) + given(b, action@),
{
    let ghost before = string_rows(out@);
    if b {
        out.push(action.to_string());
        assert(string_rows(out@) =~= before.push(action@));
    }
    assert(string_rows(out@) =~= before + given(b, action@));
}

/// What an element is, at a place in its window. An element that does not say
/// whether it is enabled is not a control that can be greyed out, and counts
/// as enabled.
pub open spec fn entity_of(p: Probe, path: Seq<u32>, verbose: bool) -> EntityView {
    EntityView {
        name: first_given(p.title@, p.description@, p.help@, p.value@),
        control_type: role_name(p.role@),
        automation_id: p.identifier@,
        bounds: if verbose {
            p.bounds
        } else {
            None
        },
        click_at: match p.bounds {
            Some(b) => (centre(b).0 as i32, centre(b).1 as i32),
            None => (0i32, 0i32),
        },
        actions: supported(p),
        enabled: match p.enabled {
            Some(b) => b,
            None => true,
        },
        path,
    }
}

/// Tells what an element is from what the accessibility service says of it.
pub fn entity(p: &Probe, path: Vec<u32>, verbose: bool) -> (r: Entity)
    requires
        p.bounds matches Some(b) ==> has_centre(b),
    ensures
        r@ == entity_of(*p, path@, verbose),
{
    let role = plain_role(p.role.as_str());
    let presses = offers(&p.native, "AXPress");
    let raises = offers(&p.native, "AXRaise");
    let types = p.focused_settable || same_text(role.as_str(), "window");
    let mut actions: Vec<String> = Vec::new();
    assert(string_rows(actions@) =~= Seq::<Seq<char>>::empty());
    add_if(&mut actions, presses, "click");
    add_if(&mut actions, same_text(role.as_str(), "edit") && p.value_settable, "type");
    add_if(&mut actions, p.expanded_settable, "expand");
    add_if(&mut actions, p.selected_settable, "select");
    add_if(&mut actions, same_text(role.as_str(), "check box") && presses, "toggle");
    add_if(&mut actions, raises, "raise");
    add_if(&mut actions, types, "key");
    add_if(&mut actions, types, "type_keys");
    assert(string_rows(actions@) =~= supported(*p));
    let name = if !p.title.as_str().is_empty() {
        p.title.clone()
    } else if !p.description.as_str().is_empty() {
        p.description.clone()
    } else if !p.help.as_str().is_empty() {
        p.help.clone()
    } else {
        p.value.clone()
    };
    let click_at: (i32, i32) = match p.bounds {
        Some(b) => centre_of(b),
        None => (0, 0),
    };
    Entity {
        name,
        control_type: role,
        automation_id: p.identifier.clone(),
        bounds: if verbose {
            p.bounds
        } else {
            None
        },
        click_at,
        actions,
        enabled: match p.enabled {
            Some(b) => b,
            None => true,
        },
        path,
    }
}

/// The rectangle between two corners, as a window manager gives it.
pub fn window_bounds(left: i32, top: i32, right: i32, bottom: i32) -> (r: Bounds)
    requires
        i32::MIN <= right - left <= i32::MAX,
        i32::MIN <= bottom - top <= i32::MAX,
    ensures
        r == (Bounds { x: left, y: top, w: (right - left) as i32, h: (bottom - top) as i32 }),
{
    Bounds { x: left, y: top, w: right - left, h: bottom - top }
}

/// Whether an element offers a native action.
pub open spec fn has_native(p: Probe, action: Seq<char>) -> bool {
    exists|i: int| 0 <= i < p.native@.len() && (#[trigger] p.native@[i])@ == action
}

proof fn lemma_native(p: Probe, action: Seq<char>)
    ensures
        string_rows(p.native@).contains(action) == has_native(p, action),
{
    let rows = string_rows(p.native@);
    if rows.contains(action) {
        let i = choose|i: int| 0 <= i < rows.len() && rows[i] == action;
        assert(p.native@[i]@ == action);
    }
    if has_native(p, action) {
        let i = choose|i: int| 0 <= i < p.native@.len() && (#[trigger] p.native@[i])@ == action;
        assert(rows[i] == action);
    }
}

proof fn lemma_actions_differ()
    ensures
        "click"@.len() == 5 && "click"@[0] == 'c',
        "type"@.len() == 4,
        "expand"@.len() == 6 && "expand"@[0] == 'e',
        "select"@.len() == 6 && "select"@[0] == 's',
        "toggle"@.len() == 6 && "toggle"@[0] == 't',
        "raise"@.len() == 5 && "raise"@[0] == 'r',
        "key"@.len() == 3,
        "type_keys"@.len() == 9,
{
    reveal_strlit("click");
    reveal_strlit("type");
    reveal_strlit("expand");
    reveal_strlit("select");
    reveal_strlit("toggle");
    reveal_strlit("raise");
    reveal_strlit("key");
    reveal_strlit("type_keys");
}

proof fn lemma_contains_sum(a: Seq<Seq<char>>, b: Seq<Seq<char>>, x: Seq<char>)
    ensures
        (a + b).contains(x) == (a.contains(x) || b.contains(x)),
{
    let c = a + b;
    if a.contains(x) {
        let i = choose|i: int| 0 <= i < a.len() && a[i] == x;
        assert(c[i] == x);
    }
    if b.contains(x) {
        let i = choose|i: int| 0 <= i < b.len() && b[i] == x;
        assert(c[a.len() + i] == x);
    }
    if c.contains(x) {
        let i = choose|i: int| 0 <= i < c.len() && c[i] == x;
        if i < a.len() {
            assert(a[i] == x);
        } else {
            assert(b[i - a.len()] == x);
        }
    }
}

proof fn lemma_given(b: bool, action: Seq<char>, x: Seq<char>)
    ensures
        given(b, action).contains(x) == (b && x == action),
{
    if b {
        assert(given(b, action)[0] == action);
    }
}

proof fn lemma_supported(p: Probe, x: Seq<char>)
    ensures
        supported(p).contains(x) <==> {
            ||| x == "click"@ && has_native(p, "AXPress"@)
            ||| x == "type"@ && role_name(p.role@) == "edit"@ && p.value_settable
            ||| x == "expand"@ && p.expanded_settable
            ||| x == "select"@ && p.selected_settable
            ||| x == "toggle"@ && role_name(p.role@) == "check box"@ && has_native(p, "AXPress"@)
            ||| x == "raise"@ && has_native(p, "AXRaise"@)
            ||| x == "key"@ && (p.focused_settable || role_name(p.role@) == "window"@)
            ||| x == "type_keys"@ && (p.focused_settable || role_name(p.role@) == "window"@)
        },
{
    let role = role_name(p.role@);
    let presses = string_rows(p.native@).contains("AXPress"@);
    let raises = string_rows(p.native@).contains("AXRaise"@);
    let types = p.focused_settable || role == "window"@;
    lemma_native(p, "AXPress"@);
    lemma_native(p, "AXRaise"@);
    let a = given(presses, "click"@);
    let b = given(role == "edit"@ && p.value_settable, "type"@);
    let c = given(p.expanded_settable, "expand"@);
    let d = given(p.selected_settable, "select"@);
    let e = given(role == "check box"@ && presses, "toggle"@);
    let f = given(raises, "raise"@);
    let g = given(types, "key"@);
    let h = given(types, "type_keys"@);
    lemma_given(presses, "click"@, x);
    lemma_given(role == "edit"@ && p.value_settable, "type"@, x);
    lemma_given(p.expanded_settable, "expand"@, x);
    lemma_given(p.selected_settable, "select"@, x);
    lemma_given(role == "check box"@ && presses, "toggle"@, x);
    lemma_given(raises, "raise"@, x);
    lemma_given(types, "key"@, x);
    lemma_given(types, "type_keys"@, x);
    lemma_contains_sum(a, b, x);
    lemma_contains_sum(a + b, c, x);
    lemma_contains_sum(a + b + c, d, x);
    lemma_contains_sum(a + b + c + d, e, x);
    lemma_contains_sum(a + b + c + d + e, f, x);
    lemma_contains_sum(a + b + c + d + e + f, g, x);
    lemma_contains_sum(a + b + c + d + e + f + g, h, x);
}

/// Each action is offered exactly under its own condition, whatever else the
/// element supports, and nothing is offered beside these.
pub proof fn law_each_action_has_its_condition(p: Probe, path: Seq<u32>, verbose: bool)
    ensures
        ({
            let e = entity_of(p, path, verbose);
            let types = p.focused_settable || e.control_type == "window"@;
            &&& e.actions.contains("click"@) <==> has_native(p, "AXPress"@)
            &&& e.actions.contains("type"@) <==> e.control_type == "edit"@ && p.value_settable
            &&& e.actions.contains("expand"@) <==> p.expanded_settable
            &&& e.actions.contains("select"@) <==> p.selected_settable
            &&& e.actions.contains("toggle"@) <==> e.control_type == "check box"@ && has_native(
                p,
                "AXPress"@,
            )
            &&& e.actions.contains("raise"@) <==> has_native(p, "AXRaise"@)
            &&& e.actions.contains("key"@) <==> types
            &&& e.actions.contains("type_keys"@) <==> types
            &&& forall|x: Seq<char>| #[trigger]
                e.actions.contains(x) ==> {
                    ||| x == "click"@
                    ||| x == "type"@
                    ||| x == "expand"@
                    ||| x == "select"@
                    ||| x == "toggle"@
                    ||| x == "raise"@
                    ||| x == "key"@
                    ||| x == "type_keys"@
                }
        }),
{
    lemma_actions_differ();
    lemma_supported(p, "click"@);
    lemma_supported(p, "type"@);
    lemma_supported(p, "expand"@);
    lemma_supported(p, "select"@);
    lemma_supported(p, "toggle"@);
    lemma_supported(p, "raise"@);
    lemma_supported(p, "key"@);
    lemma_supported(p, "type_keys"@);
    let e = entity_of(p, path, verbose);
    assert forall|x: Seq<char>| #[trigger] e.actions.contains(x) implies {
        ||| x == "click"@
        ||| x == "type"@
        ||| x == "expand"@
        ||| x == "select"@
        ||| x == "toggle"@
        ||| x == "raise"@
        ||| x == "key"@
        ||| x == "type_keys"@
    } by {
        lemma_supported(p, x);
    }
}

/// The actions in the order in which they are offered.
pub open spec fn offering_order() -> Seq<Seq<char>> {
    seq![
        "click"@,
        "type"@,
        "expand"@,
        "select"@,
        "toggle"@,
        "raise"@,
        "key"@,
        "type_keys"@,
    ]
}

/// Whether some actions stand in the order in which they are offered, each
/// once, up to a place in that order.
#[verifier::opaque]
spec fn in_offering_order(actions: Seq<Seq<char>>, upto: int) -> bool {
    &&& forall|i: int|
        0 <= i < actions.len() ==> exists|a: int|
            0 <= a < upto && offering_order()[a] == #[trigger] actions[i]
    &&& forall|i: int, j: int|
        #![trigger actions[i], actions[j]]
        0 <= i < j < actions.len() ==> offered_before(actions[i], actions[j])
}

/// Whether an action is offered before another.
pub open spec fn offered_before(x: Seq<char>, y: Seq<char>) -> bool {
    exists|a: int, b: int|
        0 <= a < b < 8 && #[trigger] offering_order()[a] == x && #[trigger] offering_order()[b]
            == y
}

proof fn lemma_offering(actions: Seq<Seq<char>>, upto: int, b: bool)
    requires
        0 <= upto < 8,
        in_offering_order(actions, upto),
    ensures
        in_offering_order(actions + given(b, offering_order()[upto]), upto + 1),
{
    reveal(in_offering_order);
    let x = offering_order()[upto];
    let all = actions + given(b, x);
    assert forall|i: int| 0 <= i < all.len() implies exists|a: int|
        0 <= a < upto + 1 && offering_order()[a] == #[trigger] all[i] by {
        if i < actions.len() {
            assert(all[i] == actions[i]);
            let a = choose|a: int| 0 <= a < upto && offering_order()[a] == actions[i];
            assert(offering_order()[a] == all[i]);
        } else {
            assert(offering_order()[upto] == all[i]);
        }
    }
    assert forall|i: int, j: int|
        #![trigger all[i], all[j]]
        0 <= i < j < all.len() implies offered_before(all[i], all[j]) by {
        assert(all[i] == actions[i]);
        if j < actions.len() {
            assert(all[j] == actions[j]);
        } else {
            let a = choose|a: int| 0 <= a < upto && offering_order()[a] == actions[i];
            assert(offering_order()[a] == all[i] && offering_order()[upto] == all[j]);
        }
    }
}

proof fn lemma_offered(p: Probe)
    ensures
        in_offering_order(supported(p), 8),
{
    let role = role_name(p.role@);
    let presses = string_rows(p.native@).contains("AXPress"@);
    let raises = string_rows(p.native@).contains("AXRaise"@);
    let types = p.focused_settable || role == "window"@;
    let none = Seq::<Seq<char>>::empty();
    assert(in_offering_order(none, 0)) by {
        reveal(in_offering_order);
    }
    lemma_offering(none, 0, presses);
    let a = none + given(presses, "click"@);
    lemma_offering(a, 1, role == "edit"@ && p.value_settable);
    let b = a + given(role == "edit"@ && p.value_settable, "type"@);
    lemma_offering(b, 2, p.expanded_settable);
    let c = b + given(p.expanded_settable, "expand"@);
    lemma_offering(c, 3, p.selected_settable);
    let d = c + given(p.selected_settable, "select"@);
    lemma_offering(d, 4, role == "check box"@ && presses);
    let e = d + given(role == "check box"@ && presses, "toggle"@);
    lemma_offering(e, 5, raises);
    let f = e + given(raises, "raise"@);
    lemma_offering(f, 6, types);
    let g = f + given(types, "key"@);
    lemma_offering(g, 7, types);
    let h = g + given(types, "type_keys"@);
    assert(a =~= given(presses, "click"@));
    assert(supported(p) == h);
}

/// The actions come in one order, and none comes twice.
pub proof fn law_actions_come_in_order(p: Probe, path: Seq<u32>, verbose: bool, i: int, j: int)
    requires
        0 <= i < j < entity_of(p, path, verbose).actions.len(),
    ensures
        offered_before(
            entity_of(p, path, verbose).actions[i],
            entity_of(p, path, verbose).actions[j],
        ),
        entity_of(p, path, verbose).actions[i] != entity_of(p, path, verbose).actions[j],
{
    lemma_offered_pair(p, i, j);
    lemma_before_differs(supported(p)[i], supported(p)[j]);
}

proof fn lemma_offered_pair(p: Probe, i: int, j: int)
    requires
        0 <= i < j < supported(p).len(),
    ensures
        offered_before(supported(p)[i], supported(p)[j]),
{
    lemma_offered(p);
    lemma_in_order(supported(p), i, j);
}

proof fn lemma_in_order(actions: Seq<Seq<char>>, i: int, j: int)
    requires
        in_offering_order(actions, 8),
        0 <= i < j < actions.len(),
    ensures
        offered_before(actions[i], actions[j]),
{
    reveal(in_offering_order);
}

proof fn lemma_before_differs(x: Seq<char>, y: Seq<char>)
    requires
        offered_before(x, y),
    ensures
        x != y,
{
    let (m, n) = choose|m: int, n: int|
        0 <= m < n < 8 && #[trigger] offering_order()[m] == x && #[trigger] offering_order()[n]
            == y;
    lemma_order_key(m);
    lemma_order_key(n);
}

/// An action is told by its length and its first letter.
proof fn lemma_order_key(a: int)
    requires
        0 <= a < 8,
    ensures
        ({
            let x = offering_order()[a];
            let key = if x.len() == 5 && x[0] == 'c' {
                0int
            } else if x.len() == 4 {
                1
            } else if x.len() == 6 && x[0] == 'e' {
                2
            } else if x.len() == 6 && x[0] == 's' {
                3
            } else if x.len() == 6 {
                4
            } else if x.len() == 5 {
                5
            } else if x.len() == 3 {
                6
            } else {
                7
            };
            key == a
        }),
{
    lemma_actions_differ();
}

/// An element is told by its plain role exactly where its own role is the one
/// that the plain one stands for. Text fields, text areas and combo boxes are
/// all edited; every other plain role stands for one role.
pub proof fn law_plain_roles(role: Seq<char>)
    ensures
        role_name(role) == "edit"@ <==> role == "AXTextField"@ || role == "AXTextArea"@ || role
            == "AXComboBox"@ || role == "edit"@,
        role_name(role) == "button"@ <==> role == "AXButton"@ || role == "button"@,
        role_name(role) == "check box"@ <==> role == "AXCheckBox"@ || role == "check box"@,
        role_name(role) == "radio button"@ <==> role == "AXRadioButton"@ || role
            == "radio button"@,
        role_name(role) == "menu item"@ <==> role == "AXMenuItem"@ || role == "menu item"@,
        role_name(role) == "menu bar"@ <==> role == "AXMenuBar"@ || role == "menu bar"@,
        role_name(role) == "window"@ <==> role == "AXWindow"@ || role == "window"@,
        role_name(role) == "tab"@ <==> role == "AXTabGroup"@ || role == "tab"@,
        role_name(role) == "link"@ <==> role == "AXLink"@ || role == "link"@,
        role_name(role) == "row"@ <==> role == "AXRow"@ || role == "row"@,
        role_name(role) == "text"@ <==> role == "AXStaticText"@ || role == "text"@,
        role_name(role) != role ==> role.len() > 2 && role[0] == 'A' && role[1] == 'X',
{
    reveal_strlit("AXTextField");
    reveal_strlit("AXTextArea");
    reveal_strlit("AXComboBox");
    reveal_strlit("AXButton");
    reveal_strlit("AXCheckBox");
    reveal_strlit("AXRadioButton");
    reveal_strlit("AXMenuItem");
    reveal_strlit("AXMenuBar");
    reveal_strlit("AXWindow");
    reveal_strlit("AXTabGroup");
    reveal_strlit("AXLink");
    reveal_strlit("AXRow");
    reveal_strlit("AXStaticText");
    reveal_strlit("edit");
    reveal_strlit("button");
    reveal_strlit("check box");
    reveal_strlit("radio button");
    reveal_strlit("menu item");
    reveal_strlit("menu bar");
    reveal_strlit("window");
    reveal_strlit("tab");
    reveal_strlit("link");
    reveal_strlit("row");
    reveal_strlit("text");
    assert("AXTextArea"@[2] == 'T' && "AXTextArea"@[3] == 'e' && "AXComboBox"@[2] == 'C'
        && "AXComboBox"@[3] == 'o' && "AXCheckBox"@[2] == 'C' && "AXCheckBox"@[3] == 'h'
        && "AXMenuItem"@[2] == 'M' && "AXTabGroup"@[2] == 'T' && "AXTabGroup"@[3] == 'a');
    assert("AXButton"@[2] == 'B' && "AXWindow"@[2] == 'W');
    assert("edit"@[0] == 'e' && "link"@[0] == 'l' && "text"@[0] == 't');
    assert("button"@[0] == 'b' && "window"@[0] == 'w');
    assert("check box"@[0] == 'c' && "menu item"@[0] == 'm' && "tab"@[0] == 't' && "row"@[0]
        == 'r');
    assert("AXTextField"@.len() == 11 && "AXRadioButton"@.len() == 13 && "AXMenuBar"@.len() == 9
        && "AXLink"@.len() == 6 && "AXRow"@.len() == 5 && "AXStaticText"@.len() == 12);
    assert("radio button"@.len() == 12 && "menu bar"@.len() == 8 && "menu item"@.len() == 9
        && "check box"@.len() == 9 && "edit"@.len() == 4 && "link"@.len() == 4 && "text"@.len()
        == 4 && "button"@.len() == 6 && "window"@.len() == 6 && "tab"@.len() == 3 && "row"@.len()
        == 3);
    assert("radio button"@[0] == 'r' && "menu bar"@[0] == 'm');
}

/// The name is the first of title, description, help and value that is given,
/// and is empty only where none is.
pub proof fn law_name_comes_from_the_first_given(p: Probe, path: Seq<u32>, verbose: bool)
    ensures
        ({
            let name = entity_of(p, path, verbose).name;
            &&& p.title@.len() > 0 ==> name == p.title@
            &&& p.title@.len() == 0 && p.description@.len() > 0 ==> name == p.description@
            &&& p.title@.len() + p.description@.len() == 0 && p.help@.len() > 0 ==> name == p.help@
            &&& p.title@.len() + p.description@.len() + p.help@.len() == 0 ==> name == p.value@
        }),
{
}

/// The click point of an element is the middle of its rectangle: as far from
/// one edge as from the other, but for the half that a whole number cannot
/// tell, which is given up toward the corner. An element without a rectangle
/// has none.
pub proof fn law_click_lands_in_the_middle(p: Probe, path: Seq<u32>, verbose: bool)
    requires
        p.bounds matches Some(b) ==> has_centre(b),
    ensures
        ({
            let at = entity_of(p, path, verbose).click_at;
            match p.bounds {
                Some(b) => {
                    &&& b.w >= 0 ==> b.w - 1 <= 2 * (at.0 - b.x) <= b.w
                    &&& b.w < 0 ==> b.w <= 2 * (at.0 - b.x) <= b.w + 1
                    &&& b.h >= 0 ==> b.h - 1 <= 2 * (at.1 - b.y) <= b.h
                    &&& b.h < 0 ==> b.h <= 2 * (at.1 - b.y) <= b.h + 1
                    &&& b.w > 0 ==> b.x <= at.0 < b.x + b.w
                    &&& b.h > 0 ==> b.y <= at.1 < b.y + b.h
                },
                None => at == (0i32, 0i32),
            }
        }),
{
}

/// What an element says of itself is kept as it says it: its identifier, its
/// rectangle where one was asked for, and that it is disabled, which counts
/// only where it says so. The path is the one that led to it.
pub proof fn law_entity_keeps_what_is_said(p: Probe, path: Seq<u32>, verbose: bool)
    ensures
        entity_of(p, path, verbose).automation_id == p.identifier@,
        entity_of(p, path, verbose).path == path,
        entity_of(p, path, verbose).enabled <==> p.enabled != Some(false),
        verbose ==> entity_of(p, path, verbose).bounds == p.bounds,
        !verbose ==> entity_of(p, path, verbose).bounds is None,
{
}

/// The centre of a rectangle has screen coordinates wherever the rectangle
/// lies on the screen.
pub proof fn law_rectangles_on_screen_have_centres(b: Bounds)
    requires
        i32::MIN <= b.x + b.w <= i32::MAX,
        i32::MIN <= b.y + b.h <= i32::MAX,
    ensures
        has_centre(b),
{
}

/// An entity and its view agree in every field.
pub proof fn law_entity_is_what_it_says(e: Entity, i: int)
    ensures
        e@.name == e.name@,
        e@.control_type == e.control_type@,
        e@.automation_id == e.automation_id@,
        e@.bounds == e.bounds,
        e@.click_at == e.click_at,
        e@.enabled == e.enabled,
        e@.path == e.path@,
        e@.actions.len() == e.actions@.len(),
        0 <= i < e.actions@.len() ==> e@.actions[i] == e.actions@[i]@,
{
}

} // verus!
