//! Laws of messages, names and settings, case by case.

use crate::cwd::CwdView;
use crate::events::{
    EffectView, EventType, EventView, PaneId, PermissionStatus, PermissionType, PipeMessageView,
    PipeSourceView,
};
use crate::model::{not_about, text_for, Decoration, Model};
use crate::text::{decimal_text, parsed_usize, replaced};
use vstd::prelude::*;

verus! {

// ── Names ──────────────────────────────────────────────────────────────────

/// A tab's name is composed of its prefix, its base name, its suffix and, where there is a format
/// and the tab holds more than one pane, the format with the number in place of every
/// `{pane_count}`. A decoration that a tab does not have is nothing; a tab whose number of panes is
/// not known holds one.
pub proof fn law_names_are_composed(m: Model, tab_id: usize, base_name: Seq<char>)
    ensures
        ({
            let prefix = match m.tab_prefixes.get(tab_id) {
                Some(text) => text,
                None => Seq::empty(),
            };
            let suffix = match m.tab_suffixes.get(tab_id) {
                Some(text) => text,
                None => Seq::empty(),
            };
            let number: usize = match m.tab_pane_counts.get(tab_id) {
                Some(count) => count,
                None => 1,
            };
            let shown = match m.pane_count_format {
                Some(format) => if number >= 2 {
                    replaced(format, "{pane_count}"@, decimal_text(number as nat))
                } else {
                    Seq::empty()
                },
                None => Seq::empty(),
            };
            m.compose_rendered_name(tab_id, base_name) == prefix + base_name + suffix + shown
        }),
{
}

// ── Decorations ────────────────────────────────────────────────────────────

/// What a message does to the sender: a command line is let go, and nothing is done to others.
pub open spec fn let_go(m: Model, source: PipeSourceView) -> Model {
    Model {
        effects: match source {
            PipeSourceView::Cli(id) => m.effects.push(EffectView::UnblockCliPipe(id)),
            PipeSourceView::Plugin(_) => m.effects,
            PipeSourceView::Keybind => m.effects,
        },
        ..m
    }
}

/// The tab that arguments mean.
pub open spec fn meant(m: Model, args: Map<Seq<char>, Seq<char>>) -> Option<usize> {
    match args.get("tab_id"@) {
        Some(text) => if text == "active"@ {
            m.active_tab_id
        } else {
            parsed_usize(text)
        },
        None => m.active_tab_id,
    }
}

/// The value that arguments give, or nothing.
pub open spec fn given_value(args: Map<Seq<char>, Seq<char>>) -> Seq<char> {
    match args.get("value"@) {
        Some(text) => text,
        None => Seq::empty(),
    }
}

/// Whether a state is as it was, but that a tab has other decorations and, where it has a base name,
/// shows it in them, being renamed if and only if it showed another name.
pub open spec fn is_redecorated(
    before: Model,
    tab_id: usize,
    prefixes: Map<usize, Seq<char>>,
    suffixes: Map<usize, Seq<char>>,
    after: Model,
) -> bool {
    let changed = Model { tab_prefixes: prefixes, tab_suffixes: suffixes, ..before };
    match before.base_names.get(tab_id) {
        Some(base_name) => {
            let shown = changed.compose_rendered_name(tab_id, base_name);
            after == Model {
                rendered_names: before.rendered_names.insert(tab_id, shown),
                effects: if before.rendered_names.get(tab_id) == Some(shown) {
                    before.effects
                } else {
                    before.effects.push(EffectView::RenameTab { tab_id, name: shown })
                },
                ..changed
            }
        },
        None => after == changed,
    }
}

proof fn lemma_refresh_redecorates(
    m: Model,
    tab_id: usize,
    prefixes: Map<usize, Seq<char>>,
    suffixes: Map<usize, Seq<char>>,
)
    ensures
        ({
            let changed = Model { tab_prefixes: prefixes, tab_suffixes: suffixes, ..m };
            is_redecorated(m, tab_id, prefixes, suffixes, changed.refresh_tab_name(tab_id))
        }),
{
    let changed = Model { tab_prefixes: prefixes, tab_suffixes: suffixes, ..m };
    if m.base_names.contains_key(tab_id) {
        let shown = changed.compose_rendered_name(tab_id, m.base_names[tab_id]);
        if m.rendered_names.get(tab_id) == Some(shown) {
            assert(m.rendered_names.insert(tab_id, shown) =~= m.rendered_names);
        }
    }
}

/// The decorations of one sort once a tab has one: the value, or none where it is empty.
pub open spec fn with_value(
    map: Map<usize, Seq<char>>,
    tab_id: usize,
    value: Seq<char>,
) -> Map<usize, Seq<char>> {
    if value.len() == 0 {
        map.remove(tab_id)
    } else {
        map.insert(tab_id, value)
    }
}

/// Whether a tab has a decoration already, or none where the value is empty.
pub open spec fn has_value(
    map: Map<usize, Seq<char>>,
    tab_id: usize,
    value: Seq<char>,
) -> bool {
    match map.get(tab_id) {
        Some(text) => text == value,
        None => value.len() == 0,
    }
}

/// Whether a message has set the prefix of the tab it means, and done nothing but that and let go of
/// its sender; and nothing but the latter where no tab is meant or the tab has that prefix.
pub open spec fn prefix_is_set(
    m: Model,
    message: PipeMessageView,
    value: Seq<char>,
    after: Model,
) -> bool {
    let before = let_go(m, message.source);
    match meant(m, message.args) {
        Some(tab_id) => if has_value(m.tab_prefixes, tab_id, value) {
            after == before
        } else {
            is_redecorated(
                before,
                tab_id,
                with_value(m.tab_prefixes, tab_id, value),
                m.tab_suffixes,
                after,
            )
        },
        None => after == before,
    }
}

/// The same of the suffix.
pub open spec fn suffix_is_set(
    m: Model,
    message: PipeMessageView,
    value: Seq<char>,
    after: Model,
) -> bool {
    let before = let_go(m, message.source);
    match meant(m, message.args) {
        Some(tab_id) => if has_value(m.tab_suffixes, tab_id, value) {
            after == before
        } else {
            is_redecorated(
                before,
                tab_id,
                m.tab_prefixes,
                with_value(m.tab_suffixes, tab_id, value),
                after,
            )
        },
        None => after == before,
    }
}

/// The names of the five messages differ.
proof fn lemma_message_names()
    ensures
        "set_prefix"@ != "set_suffix"@,
        "set_prefix"@ != "clear_prefix"@,
        "set_prefix"@ != "clear_suffix"@,
        "set_prefix"@ != "clear_all"@,
        "set_suffix"@ != "clear_prefix"@,
        "set_suffix"@ != "clear_suffix"@,
        "set_suffix"@ != "clear_all"@,
        "clear_prefix"@ != "clear_suffix"@,
        "clear_prefix"@ != "clear_all"@,
        "clear_suffix"@ != "clear_all"@,
{
    reveal_strlit("set_prefix");
    reveal_strlit("set_suffix");
    reveal_strlit("clear_prefix");
    reveal_strlit("clear_suffix");
    reveal_strlit("clear_all");
    assert("set_prefix"@[0] == 's' && "set_suffix"@[0] == 's');
    assert("clear_prefix"@[0] == 'c' && "clear_suffix"@[0] == 'c' && "clear_all"@[0] == 'c');
    assert("set_prefix"@[4] == 'p' && "set_suffix"@[4] == 's');
    assert("clear_prefix"@[6] == 'p' && "clear_suffix"@[6] == 's' && "clear_all"@[6] == 'a');
}

proof fn lemma_decorate_sets(m: Model, tab_id: usize, decoration: Decoration, value: Seq<char>)
    ensures
        ({
            let map = m.decorations(decoration);
            let after = m.decorate(tab_id, decoration, value);
            if has_value(map, tab_id, value) {
                after == m
            } else {
                match decoration {
                    Decoration::Prefix => is_redecorated(
                        m,
                        tab_id,
                        with_value(map, tab_id, value),
                        m.tab_suffixes,
                        after,
                    ),
                    Decoration::Suffix => is_redecorated(
                        m,
                        tab_id,
                        m.tab_prefixes,
                        with_value(map, tab_id, value),
                        after,
                    ),
                }
            }
        }),
{
    let map = m.decorations(decoration);
    if value.len() == 0 {
        assert(value =~= Seq::empty());
    }
    assert(has_value(map, tab_id, value) == (value == text_for(map, tab_id)));
    match decoration {
        Decoration::Prefix => {
            lemma_refresh_redecorates(
                m,
                tab_id,
                with_value(map, tab_id, value),
                m.tab_suffixes,
            );
        },
        Decoration::Suffix => {
            lemma_refresh_redecorates(
                m,
                tab_id,
                m.tab_prefixes,
                with_value(map, tab_id, value),
            );
        },
    }
}

proof fn lemma_set_prefix(m: Model, message: PipeMessageView, value: Seq<char>)
    ensures
        prefix_is_set(
            m,
            message,
            value,
            m.unblock(message.source).set_decoration(message.args, Decoration::Prefix, value),
        ),
{
    let before = m.unblock(message.source);
    assert(before =~= let_go(m, message.source));
    assert(before.resolve_tab_id(message.args) == meant(m, message.args));
    match meant(m, message.args) {
        Some(tab_id) => lemma_decorate_sets(before, tab_id, Decoration::Prefix, value),
        None => {},
    }
}

proof fn lemma_set_suffix(m: Model, message: PipeMessageView, value: Seq<char>)
    ensures
        suffix_is_set(
            m,
            message,
            value,
            m.unblock(message.source).set_decoration(message.args, Decoration::Suffix, value),
        ),
{
    let before = m.unblock(message.source);
    assert(before =~= let_go(m, message.source));
    assert(before.resolve_tab_id(message.args) == meant(m, message.args));
    match meant(m, message.args) {
        Some(tab_id) => lemma_decorate_sets(before, tab_id, Decoration::Suffix, value),
        None => {},
    }
}

/// `set_prefix` sets the prefix of the tab it means to the value it gives.
pub proof fn law_set_prefix_sets_the_prefix(m: Model, message: PipeMessageView)
    requires
        message.name == "set_prefix"@,
    ensures
        prefix_is_set(m, message, given_value(message.args), m.handle_pipe(message)),
{
    lemma_set_prefix(m, message, given_value(message.args));
}

/// `set_suffix` sets the suffix of the tab it means to the value it gives.
pub proof fn law_set_suffix_sets_the_suffix(m: Model, message: PipeMessageView)
    requires
        message.name == "set_suffix"@,
    ensures
        suffix_is_set(m, message, given_value(message.args), m.handle_pipe(message)),
{
    lemma_message_names();
    lemma_set_suffix(m, message, given_value(message.args));
}

/// `clear_prefix` leaves the tab it means without a prefix, whatever value it gives.
pub proof fn law_clear_prefix_clears_the_prefix(m: Model, message: PipeMessageView)
    requires
        message.name == "clear_prefix"@,
    ensures
        prefix_is_set(m, message, Seq::empty(), m.handle_pipe(message)),
{
    lemma_message_names();
    lemma_set_prefix(m, message, Seq::empty());
}

/// `clear_suffix` leaves the tab it means without a suffix, whatever value it gives.
pub proof fn law_clear_suffix_clears_the_suffix(m: Model, message: PipeMessageView)
    requires
        message.name == "clear_suffix"@,
    ensures
        suffix_is_set(m, message, Seq::empty(), m.handle_pipe(message)),
{
    lemma_message_names();
    lemma_set_suffix(m, message, Seq::empty());
}

/// `clear_all` leaves the tab it means without prefix and suffix, and does nothing else but let go
/// of its sender; where it has neither, that alone.
pub proof fn law_clear_all_clears_the_decorations(m: Model, message: PipeMessageView)
    requires
        message.name == "clear_all"@,
    ensures
        ({
            let before = let_go(m, message.source);
            match meant(m, message.args) {
                Some(tab_id) => if m.tab_prefixes.contains_key(tab_id)
                    || m.tab_suffixes.contains_key(tab_id) {
                    is_redecorated(
                        before,
                        tab_id,
                        m.tab_prefixes.remove(tab_id),
                        m.tab_suffixes.remove(tab_id),
                        m.handle_pipe(message),
                    )
                } else {
                    m.handle_pipe(message) == before
                },
                None => m.handle_pipe(message) == before,
            }
        }),
{
    lemma_message_names();
    let before = m.unblock(message.source);
    assert(before =~= let_go(m, message.source));
    assert(before.resolve_tab_id(message.args) == meant(m, message.args));
    match meant(m, message.args) {
        Some(tab_id) => {
            lemma_refresh_redecorates(
                before,
                tab_id,
                m.tab_prefixes.remove(tab_id),
                m.tab_suffixes.remove(tab_id),
            );
        },
        None => {},
    }
}

/// A message of another name does nothing but let go of its sender.
pub proof fn law_other_messages_only_let_go(m: Model, message: PipeMessageView)
    requires
        message.name != "set_prefix"@,
        message.name != "set_suffix"@,
        message.name != "clear_prefix"@,
        message.name != "clear_suffix"@,
        message.name != "clear_all"@,
    ensures
        m.handle_pipe(message) == let_go(m, message.source),
{
    assert(m.unblock(message.source) =~= let_go(m, message.source));
}

// ── Start ──────────────────────────────────────────────────────────────────

/// At first nothing is known, kept or granted, and nothing is to be done.
pub proof fn law_nothing_is_known_at_first()
    ensures
        ({
            let m = Model::initial();
            &&& m.effects.len() == 0
            &&& !m.got_permissions && !m.git_detection
            &&& m.buffered_tabs is None && m.buffered_panes is None && m.deferred_panes is None
            &&& m.buffered_cwds.len() == 0 && m.pending_cwds.len() == 0
            &&& m.pane_count_format is None && m.active_tab_id is None && m.home_dir.len() == 0
            &&& m.base_names.dom() == Set::<usize>::empty()
            &&& m.rendered_names.dom() == Set::<usize>::empty()
            &&& m.tab_pane_counts.dom() == Set::<usize>::empty()
            &&& m.index_to_id.dom() == Set::<usize>::empty()
            &&& m.tab_cwds.dom() == Set::<usize>::empty()
            &&& m.tab_prefixes.dom() == Set::<usize>::empty()
            &&& m.tab_suffixes.dom() == Set::<usize>::empty()
            &&& m.pane_to_tab.dom() == Set::<u32>::empty()
            &&& m.root_aliases.dom() == Set::<Seq<char>>::empty()
            &&& m.pending_git.dom() == Set::<Seq<char>>::empty()
            &&& forall|t: usize| !#[trigger] m.floating_visible.contains(t)
            &&& forall|cwd: Seq<char>|
                #![trigger m.git_roots.contains(cwd)]
                !m.git_roots.contains(cwd) && !m.not_git.contains(cwd) && !m.resolved_cwds.contains(
                    cwd,
                )
        }),
{
}

/// Handing out what is to be done loses nothing but that.
pub proof fn law_handing_out_keeps_the_rest(m: Model)
    ensures
        m.drained().effects.len() == 0,
        (Model { effects: m.effects, ..m.drained() }) == m,
{
}

// ── Settings ───────────────────────────────────────────────────────────────

/// Reading the configuration takes git detection to be on unless it is set to `false`, and takes the
/// format and home over as they are; it changes nothing else. It asks to read and to change the
/// state of the session, and for tabs, panes, directories and the answer on permissions, whatever
/// the configuration; and to run commands, and for their results, exactly where git detection is on.
pub proof fn law_configuration_is_read(
    m: Model,
    config: Map<Seq<char>, Seq<char>>,
    home_dir: Seq<char>,
)
    ensures
        ({
            let after = m.init(config, home_dir);
            let git = config.get("git_detection"@) != Some("false"@);
            &&& after == Model {
                effects: after.effects,
                git_detection: git,
                pane_count_format: config.get("pane_count"@),
                home_dir,
                ..m
            }
            &&& after.effects == m.effects + seq![
                EffectView::RequestPermissions(
                    if git {
                        seq![
                            PermissionType::ReadApplicationState,
                            PermissionType::ChangeApplicationState,
                            PermissionType::RunCommands,
                        ]
                    } else {
                        seq![
                            PermissionType::ReadApplicationState,
                            PermissionType::ChangeApplicationState,
                        ]
                    },
                ),
                EffectView::Subscribe(
                    if git {
                        seq![
                            EventType::TabUpdate,
                            EventType::PaneUpdate,
                            EventType::CwdChanged,
                            EventType::PermissionRequestResult,
                            EventType::RunCommandResult,
                        ]
                    } else {
                        seq![
                            EventType::TabUpdate,
                            EventType::PaneUpdate,
                            EventType::CwdChanged,
                            EventType::PermissionRequestResult,
                        ]
                    },
                ),
            ]
        }),
{
    let after = m.init(config, home_dir);
    let git = config.get("git_detection"@) != Some("false"@);
    let permissions = if git {
        seq![
            PermissionType::ReadApplicationState,
            PermissionType::ChangeApplicationState,
            PermissionType::RunCommands,
        ]
    } else {
        seq![PermissionType::ReadApplicationState, PermissionType::ChangeApplicationState]
    };
    let events = if git {
        seq![
            EventType::TabUpdate,
            EventType::PaneUpdate,
            EventType::CwdChanged,
            EventType::PermissionRequestResult,
            EventType::RunCommandResult,
        ]
    } else {
        seq![
            EventType::TabUpdate,
            EventType::PaneUpdate,
            EventType::CwdChanged,
            EventType::PermissionRequestResult,
        ]
    };
    assert(after.git_detection == git);
    assert(after.permissions() =~= permissions);
    assert(after.subscriptions() =~= events);
    assert(after.effects =~= m.effects + seq![
        EffectView::RequestPermissions(permissions),
        EffectView::Subscribe(events),
    ]);
}

// ── Before permissions are granted ─────────────────────────────────────────

/// Until permissions are granted an event is only kept: tabs and panes as the latest snapshot of
/// their sort, a terminal's directory as the last of those that are kept and the only one about it;
/// nothing else is kept, and nothing else changes.
pub proof fn law_events_are_kept_until_granted(m: Model, event: EventView)
    requires
        !m.got_permissions,
        event != EventView::PermissionRequestResult(PermissionStatus::Granted),
    ensures
        m.handle(event) == (Model {
            buffered_tabs: match event {
                EventView::TabUpdate(tabs) => Some(tabs),
                _ => m.buffered_tabs,
            },
            buffered_panes: match event {
                EventView::PaneUpdate(manifest) => Some(manifest),
                _ => m.buffered_panes,
            },
            buffered_cwds: match event {
                EventView::CwdChanged(PaneId::Terminal(id), cwd) => m.buffered_cwds.filter(
                    |entry: (u32, CwdView)| entry.0 != id,
                ).push((id, cwd)),
                _ => m.buffered_cwds,
            },
            ..m
        }),
{
    match event {
        EventView::CwdChanged(PaneId::Terminal(id), cwd) => {
            assert((|entry: (u32, CwdView)| entry.0 != id) =~= not_about(id));
        },
        _ => {},
    }
}

/// The answer to a query counts as a report of the terminal's directory; no answer as nothing.
pub proof fn law_answers_count_as_reports(m: Model, id: u32, cwd: CwdView)
    ensures
        m.answer_query(id, Some(cwd)) == m.handle(
            EventView::CwdChanged(PaneId::Terminal(id), cwd),
        ),
        m.answer_query(id, None) == m,
{
}

} // verus!
