//! Laws of decorations: they are kept, they are shown, and they can be taken back.

use crate::cwd::utf8_lossy;
use crate::events::{EventView, PermissionStatus};
use crate::laws::counts::is_current;
use crate::laws::paths::{law_numbers_read_back, lemma_decimal_round_trip};
use crate::model::{git_root_of, tab_ids, text_for, Decoration, Model};
use crate::text::{decimal_text, is_digit};
use crate::validity::{
    lemma_cwd_changed_keeps, lemma_git_verdict_keeps, lemma_pane_update_keeps,
    lemma_place_tabs_keeps, lemma_released_core, no_empty_text,
};
use vstd::prelude::*;

verus! {

/// Whether an event says that a tab is gone: in a snapshot of all tabs, or in one that was kept
/// until permissions are granted.
pub open spec fn tab_is_gone(m: Model, event: EventView, tab_id: usize) -> bool {
    match event {
        EventView::TabUpdate(tabs) => m.got_permissions && !tab_ids(tabs).contains(tab_id),
        EventView::PermissionRequestResult(PermissionStatus::Granted) => !m.got_permissions
            && m.buffered_tabs is Some && !tab_ids(m.buffered_tabs->0).contains(tab_id),
        _ => false,
    }
}

/// The decorations of a tab outlive every event but the end of the tab.
pub proof fn law_decorations_survive(m: Model, event: EventView, tab_id: usize)
    requires
        m.inv(),
        !tab_is_gone(m, event, tab_id),
    ensures
        text_for(m.handle(event).tab_prefixes, tab_id) == text_for(m.tab_prefixes, tab_id),
        text_for(m.handle(event).tab_suffixes, tab_id) == text_for(m.tab_suffixes, tab_id),
{
    if m.got_permissions {
        match event {
            EventView::TabUpdate(tabs) => {
                lemma_place_tabs_keeps(m, tabs);
                if m.deferred_panes is Some {
                    lemma_pane_update_keeps(m.place_tabs(tabs), m.deferred_panes->0);
                }
            },
            EventView::PaneUpdate(manifest) => lemma_pane_update_keeps(m, manifest),
            EventView::CwdChanged(pane_id, cwd) => lemma_cwd_changed_keeps(m, pane_id, cwd),
            EventView::RunCommandResult(exit_code, stdout, context) => {
                if context.contains_key("cwd"@) {
                    lemma_git_verdict_keeps(
                        m,
                        context["cwd"@],
                        git_root_of(exit_code, utf8_lossy(stdout)),
                    );
                }
            },
            _ => {},
        }
    } else if event == EventView::PermissionRequestResult(PermissionStatus::Granted) {
        let granted = Model { got_permissions: true, ..m };
        let with_tabs = granted.release_tabs();
        let with_cwds = with_tabs.release_cwds();
        match with_cwds.buffered_panes {
            Some(manifest) => {
                lemma_released_core(m);
                lemma_pane_update_keeps(Model { buffered_panes: None, ..with_cwds }, manifest);
            },
            None => {},
        }
    }
}

/// A tab that gets another base name shows it in its decorations.
pub proof fn law_new_name_is_decorated(m: Model, tab_id: usize, name: Seq<char>)
    ensures
        m.apply_name(tab_id, name).base_names[tab_id] == name,
        m.apply_name(tab_id, name).rendered_names[tab_id] == text_for(m.tab_prefixes, tab_id) + name
            + text_for(m.tab_suffixes, tab_id) + m.pane_count_suffix(tab_id),
{
}

/// The text of a decoration of a tab.
pub open spec fn decoration_text(m: Model, tab_id: usize, decoration: Decoration) -> Seq<char> {
    text_for(m.decorations(decoration), tab_id)
}

/// Whether a tab has no base name, or displays the name that is composed for it now.
pub open spec fn shows_its_name(m: Model, tab_id: usize) -> bool {
    m.base_names.contains_key(tab_id) ==> is_current(m, tab_id)
}

/// A decoration is on record once it is set, and on display where the tab has a base name.
pub proof fn law_decoration_is_set(
    m: Model,
    tab_id: usize,
    decoration: Decoration,
    value: Seq<char>,
)
    requires
        shows_its_name(m, tab_id),
    ensures
        decoration_text(m.decorate(tab_id, decoration, value), tab_id, decoration) == value,
        shows_its_name(m.decorate(tab_id, decoration, value), tab_id),
{
    if value.len() == 0 {
        assert(value =~= Seq::empty());
    }
}

/// A decoration of one tab leaves the other tabs, all base names and the other decoration alone.
pub proof fn law_decoration_concerns_one_tab(
    m: Model,
    tab_id: usize,
    decoration: Decoration,
    value: Seq<char>,
    other: usize,
)
    ensures
        m.decorate(tab_id, decoration, value).base_names == m.base_names,
        decoration == Decoration::Prefix ==> m.decorate(
            tab_id,
            decoration,
            value,
        ).tab_suffixes == m.tab_suffixes,
        decoration == Decoration::Suffix ==> m.decorate(
            tab_id,
            decoration,
            value,
        ).tab_prefixes == m.tab_prefixes,
        other != tab_id ==> {
            &&& decoration_text(m.decorate(tab_id, decoration, value), other, decoration)
                == decoration_text(m, other, decoration)
            &&& m.decorate(tab_id, decoration, value).rendered_names.contains_key(other)
                == m.rendered_names.contains_key(other)
            &&& m.decorate(tab_id, decoration, value).rendered_names[other]
                == m.rendered_names[other]
        },
{
}

/// A tab without a base name is decorated without being renamed: the decoration waits for the name.
pub proof fn law_decoration_waits_for_a_name(
    m: Model,
    tab_id: usize,
    decoration: Decoration,
    value: Seq<char>,
)
    requires
        !m.base_names.contains_key(tab_id),
    ensures
        m.decorate(tab_id, decoration, value).effects == m.effects,
        decoration_text(m.decorate(tab_id, decoration, value), tab_id, decoration) == value,
{
    if value.len() == 0 {
        assert(value =~= Seq::empty());
    }
}

/// Setting a decoration that the tab has does nothing; so setting one twice is setting it once, and
/// clearing one that the tab does not have is silent.
pub proof fn law_same_decoration_is_silent(
    m: Model,
    tab_id: usize,
    decoration: Decoration,
    value: Seq<char>,
)
    ensures
        decoration_text(m, tab_id, decoration) == value ==> m.decorate(tab_id, decoration, value)
            == m,
        m.decorate(tab_id, decoration, value).decorate(tab_id, decoration, value) == m.decorate(
            tab_id,
            decoration,
            value,
        ),
{
    if value.len() == 0 {
        assert(value =~= Seq::empty());
    }
}

/// Two states that differ in nothing but the effects handed out.
pub open spec fn same_but_effects(a: Model, b: Model) -> bool {
    a == Model { effects: a.effects, ..b }
}

/// Of two decorations the last is what counts.
pub proof fn law_last_decoration_counts(
    m: Model,
    tab_id: usize,
    decoration: Decoration,
    first: Seq<char>,
    second: Seq<char>,
)
    requires
        m.inv(),
        shows_its_name(m, tab_id),
    ensures
        same_but_effects(
            m.decorate(tab_id, decoration, first).decorate(tab_id, decoration, second),
            m.decorate(tab_id, decoration, second),
        ),
{
    let one = m.decorate(tab_id, decoration, first);
    let two = one.decorate(tab_id, decoration, second);
    let only = m.decorate(tab_id, decoration, second);
    lemma_decorated(m, tab_id, decoration, first);
    lemma_decorated(one, tab_id, decoration, second);
    lemma_decorated(m, tab_id, decoration, second);
    assert(two.decorations(decoration) =~= only.decorations(decoration));
    lemma_same_display_of_one(m, two, only, tab_id);
}

/// A tab with another decoration: what it has become.
pub open spec fn decorated_to(
    m: Model,
    tab_id: usize,
    decoration: Decoration,
    value: Seq<char>,
    after: Model,
) -> bool {
    &&& shows_its_name(after, tab_id)
    &&& no_empty_text(after.decorations(decoration))
    &&& after.decorations(decoration) == if value.len() == 0 {
        m.decorations(decoration).remove(tab_id)
    } else {
        m.decorations(decoration).insert(tab_id, value)
    }
    &&& after == Model {
        effects: after.effects,
        rendered_names: after.rendered_names,
        ..m.with_decorations(decoration, after.decorations(decoration))
    }
    &&& forall|t: usize|
        t != tab_id ==> {
            &&& #[trigger] after.rendered_names.contains_key(t) == m.rendered_names.contains_key(t)
            &&& after.rendered_names[t] == m.rendered_names[t]
        }
    &&& !m.base_names.contains_key(tab_id) ==> after.rendered_names == m.rendered_names
}

proof fn lemma_decorated(
    m: Model,
    tab_id: usize,
    decoration: Decoration,
    value: Seq<char>,
)
    requires
        shows_its_name(m, tab_id),
        no_empty_text(m.decorations(decoration)),
    ensures
        decorated_to(m, tab_id, decoration, value, m.decorate(tab_id, decoration, value)),
{
    lemma_decorated_map(m, tab_id, decoration, value);
}

/// The decorations once one is set: the map has the value, or no entry where it is empty.
proof fn lemma_decorated_map(
    m: Model,
    tab_id: usize,
    decoration: Decoration,
    value: Seq<char>,
)
    requires
        no_empty_text(m.decorations(decoration)),
    ensures
        m.decorate(tab_id, decoration, value).decorations(decoration) =~= if value.len() == 0 {
            m.decorations(decoration).remove(tab_id)
        } else {
            m.decorations(decoration).insert(tab_id, value)
        },
        no_empty_text(m.decorate(tab_id, decoration, value).decorations(decoration)),
        m.decorate(tab_id, decoration, value) == (Model {
            effects: m.decorate(tab_id, decoration, value).effects,
            rendered_names: m.decorate(tab_id, decoration, value).rendered_names,
            ..m.with_decorations(
                decoration,
                m.decorate(tab_id, decoration, value).decorations(decoration),
            )
        }),
{
    let map = m.decorations(decoration);
    if value == text_for(map, tab_id) {
        if map.contains_key(tab_id) {
            assert(value.len() > 0);
            assert(map.insert(tab_id, value) =~= map);
        } else {
            assert(map.remove(tab_id) =~= map);
        }
        assert(m.with_decorations(decoration, map) =~= m);
    }
}

/// States that changed the display of one tab alone, where it shows its name, and that agree on all
/// that names are composed of, have the same display.
proof fn lemma_same_display_of_one(m: Model, a: Model, b: Model, tab_id: usize)
    requires
        shows_its_name(a, tab_id),
        shows_its_name(b, tab_id),
        a == (Model { effects: a.effects, rendered_names: a.rendered_names, ..b }),
        a.base_names == m.base_names,
        forall|t: usize|
            t != tab_id ==> {
                &&& #[trigger] a.rendered_names.contains_key(t) == m.rendered_names.contains_key(t)
                &&& a.rendered_names[t] == m.rendered_names[t]
            },
        forall|t: usize|
            t != tab_id ==> {
                &&& #[trigger] b.rendered_names.contains_key(t) == m.rendered_names.contains_key(t)
                &&& b.rendered_names[t] == m.rendered_names[t]
            },
        !m.base_names.contains_key(tab_id) ==> a.rendered_names == m.rendered_names
            && b.rendered_names == m.rendered_names,
    ensures
        same_but_effects(a, b),
{
    if m.base_names.contains_key(tab_id) {
        assert(is_current(a, tab_id));
        assert(is_current(b, tab_id));
        assert(a.compose_rendered_name(tab_id, a.base_names[tab_id]) == b.compose_rendered_name(
            tab_id,
            b.base_names[tab_id],
        ));
    }
    assert(a.rendered_names =~= b.rendered_names);
}

/// Clearing a decoration that a tab had not before takes everything back to where it was.
pub proof fn law_set_then_clear_restores(
    m: Model,
    tab_id: usize,
    decoration: Decoration,
    value: Seq<char>,
)
    requires
        m.inv(),
        shows_its_name(m, tab_id),
        !m.decorations(decoration).contains_key(tab_id),
    ensures
        same_but_effects(
            m.decorate(tab_id, decoration, value).decorate(tab_id, decoration, Seq::empty()),
            m,
        ),
{
    law_last_decoration_counts(m, tab_id, decoration, value, Seq::empty());
    assert(m.decorate(tab_id, decoration, Seq::empty()) == m);
}

/// Prefix and suffix can be set in either order.
pub proof fn law_prefix_and_suffix_commute(
    m: Model,
    tab_id: usize,
    prefix: Seq<char>,
    suffix: Seq<char>,
)
    requires
        m.inv(),
        shows_its_name(m, tab_id),
    ensures
        same_but_effects(
            m.decorate(tab_id, Decoration::Prefix, prefix).decorate(
                tab_id,
                Decoration::Suffix,
                suffix,
            ),
            m.decorate(tab_id, Decoration::Suffix, suffix).decorate(
                tab_id,
                Decoration::Prefix,
                prefix,
            ),
        ),
{
    let p = m.decorate(tab_id, Decoration::Prefix, prefix);
    let s = m.decorate(tab_id, Decoration::Suffix, suffix);
    let a = p.decorate(tab_id, Decoration::Suffix, suffix);
    let b = s.decorate(tab_id, Decoration::Prefix, prefix);
    lemma_decorated(m, tab_id, Decoration::Prefix, prefix);
    lemma_decorated(m, tab_id, Decoration::Suffix, suffix);
    lemma_decorated(p, tab_id, Decoration::Suffix, suffix);
    lemma_decorated(s, tab_id, Decoration::Prefix, prefix);
    lemma_same_display_of_one(m, a, b, tab_id);
}

/// Clearing all is clearing the prefix and the suffix.
pub proof fn law_clear_all_clears_both(m: Model, tab_id: usize)
    requires
        m.inv(),
        shows_its_name(m, tab_id),
    ensures
        same_but_effects(
            m.clear_decorations(tab_id),
            m.decorate(tab_id, Decoration::Prefix, Seq::empty()).decorate(
                tab_id,
                Decoration::Suffix,
                Seq::empty(),
            ),
        ),
        decoration_text(m.clear_decorations(tab_id), tab_id, Decoration::Prefix).len() == 0,
        decoration_text(m.clear_decorations(tab_id), tab_id, Decoration::Suffix).len() == 0,
        !m.tab_prefixes.contains_key(tab_id) && !m.tab_suffixes.contains_key(tab_id)
            ==> m.clear_decorations(tab_id) == m,
{
    let p = m.decorate(tab_id, Decoration::Prefix, Seq::empty());
    let b = p.decorate(tab_id, Decoration::Suffix, Seq::empty());
    let a = m.clear_decorations(tab_id);
    lemma_decorated(m, tab_id, Decoration::Prefix, Seq::empty());
    lemma_decorated(p, tab_id, Decoration::Suffix, Seq::empty());
    assert(a.tab_prefixes =~= b.tab_prefixes);
    assert(a.tab_suffixes =~= b.tab_suffixes);
    lemma_same_display_of_one(m, a, b, tab_id);
}

// ── Which tab ──────────────────────────────────────────────────────────────

/// A message that names no tab, or the active one, is about the active tab.
pub proof fn law_active_tab_is_meant_by_default(m: Model, args: Map<Seq<char>, Seq<char>>)
    requires
        !args.contains_key("tab_id"@),
    ensures
        m.resolve_tab_id(args) == m.active_tab_id,
        m.resolve_tab_id(args.insert("tab_id"@, "active"@)) == m.active_tab_id,
{
}

/// A message that gives a tab's number in decimal is about that tab.
pub proof fn law_tab_is_meant_by_its_number(
    m: Model,
    args: Map<Seq<char>, Seq<char>>,
    tab_id: usize,
)
    ensures
        m.resolve_tab_id(args.insert("tab_id"@, decimal_text(tab_id as nat))) == Some(tab_id),
{
    law_numbers_read_back(tab_id);
    let text = decimal_text(tab_id as nat);
    reveal_strlit("active");
    assert(text != "active"@) by {
        lemma_decimal_round_trip(tab_id as nat);
        assert(is_digit(text[0]));
        assert("active"@[0] == 'a');
    }
}

/// A message that gives neither a number nor the active tab, and one about the active tab where
/// there is none, changes nothing.
pub proof fn law_no_tab_no_change(m: Model, name: Seq<char>, args: Map<Seq<char>, Seq<char>>)
    requires
        m.resolve_tab_id(args) is None,
    ensures
        m.run_pipe(name, args) == m,
{
}

} // verus!
