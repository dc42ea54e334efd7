//! Laws of directories, case by case: what a report, or an answer of git, makes of names, waiters
//! and caches.

use crate::cwd::{utf8_lossy, CwdView};
use crate::events::{EffectView, EventView, PaneId};
use crate::model::{first_root, not_about, Model};
use crate::paths::{ancestors_of, basename_of, lemma_ancestors_first};
use crate::text::trimmed;
use vstd::prelude::*;

verus! {

// ── What a directory is called ─────────────────────────────────────────────

/// The name of a directory outside git: `~` where it is home, else its final component.
pub open spec fn plain_name(home: Seq<char>, cwd: Seq<char>) -> Seq<char> {
    if home.len() > 0 && cwd == home {
        seq!['~']
    } else {
        basename_of(cwd)
    }
}

/// Whether a path is the nearest to a directory, among it and its ancestors, that is a root.
pub open spec fn is_nearest_root(roots: Set<Seq<char>>, cwd: Seq<char>, root: Seq<char>) -> bool {
    exists|i: int|
        0 <= i < ancestors_of(cwd).len() && #[trigger] ancestors_of(cwd)[i] == root
            && roots.contains(root) && forall|j: int|
            0 <= j < i ==> !roots.contains(#[trigger] ancestors_of(cwd)[j])
}

/// Whether the caches call a directory by a name: outside git by its own; else by that of its alias;
/// else, where it is a root itself or git has answered for it, by that of its nearest root.
pub open spec fn is_called(m: Model, cwd: Seq<char>, name: Seq<char>) -> bool {
    if m.not_git.contains(cwd) {
        name == plain_name(m.home_dir, cwd)
    } else if m.root_aliases.contains_key(cwd) {
        name == basename_of(m.root_aliases[cwd])
    } else {
        &&& m.git_roots.contains(cwd) || m.resolved_cwds.contains(cwd)
        &&& exists|root: Seq<char>| #[trigger]
            is_nearest_root(m.git_roots, cwd, root) && name == basename_of(root)
    }
}

proof fn lemma_nearest_root(roots: Set<Seq<char>>, paths: Seq<Seq<char>>)
    ensures
        match first_root(roots, paths) {
            Some(root) => exists|i: int|
                0 <= i < paths.len() && #[trigger] paths[i] == root && roots.contains(root)
                    && forall|j: int| 0 <= j < i ==> !roots.contains(#[trigger] paths[j]),
            None => forall|j: int| 0 <= j < paths.len() ==> !roots.contains(#[trigger] paths[j]),
        },
    decreases paths.len(),
{
    if paths.len() > 0 && !roots.contains(paths[0]) {
        let rest = paths.skip(1);
        lemma_nearest_root(roots, rest);
        match first_root(roots, rest) {
            Some(root) => {
                let i = choose|i: int|
                    0 <= i < rest.len() && #[trigger] rest[i] == root && roots.contains(root)
                        && forall|j: int| 0 <= j < i ==> !roots.contains(#[trigger] rest[j]);
                assert(paths[i + 1] == root);
                assert forall|j: int| 0 <= j < i + 1 implies !roots.contains(
                    #[trigger] paths[j],
                ) by {
                    if j > 0 {
                        assert(paths[j] == rest[j - 1]);
                    }
                }
            },
            None => {
                assert forall|j: int| 0 <= j < paths.len() implies !roots.contains(
                    #[trigger] paths[j],
                ) by {
                    if j > 0 {
                        assert(paths[j] == rest[j - 1]);
                    }
                }
            },
        }
    } else if paths.len() > 0 {
        assert(paths[0] == paths[0]);
    }
}

proof fn lemma_one_nearest(roots: Set<Seq<char>>, cwd: Seq<char>, a: Seq<char>, b: Seq<char>)
    requires
        is_nearest_root(roots, cwd, a),
        is_nearest_root(roots, cwd, b),
    ensures
        a == b,
{
    let paths = ancestors_of(cwd);
    let i = choose|i: int|
        0 <= i < paths.len() && #[trigger] paths[i] == a && roots.contains(a) && forall|j: int|
            0 <= j < i ==> !roots.contains(#[trigger] paths[j]);
    let k = choose|k: int|
        0 <= k < paths.len() && #[trigger] paths[k] == b && roots.contains(b) && forall|j: int|
            0 <= j < k ==> !roots.contains(#[trigger] paths[j]);
    if i < k {
        assert(!roots.contains(paths[i]));
    } else if k < i {
        assert(!roots.contains(paths[k]));
    }
}

/// The caches give a directory the name that it is called by, and none where it is called by none.
pub proof fn law_caches_call_directories(m: Model, cwd: Seq<char>, name: Seq<char>)
    ensures
        m.cached_name(cwd) == Some(name) <==> is_called(m, cwd, name),
{
    let paths = ancestors_of(cwd);
    lemma_nearest_root(m.git_roots, paths);
    match first_root(m.git_roots, paths) {
        Some(root) => {
            let i = choose|i: int|
                0 <= i < paths.len() && #[trigger] paths[i] == root && m.git_roots.contains(root)
                    && forall|j: int| 0 <= j < i ==> !m.git_roots.contains(#[trigger] paths[j]);
            assert(ancestors_of(cwd)[i] == root);
            assert(is_nearest_root(m.git_roots, cwd, root));
            if exists|other: Seq<char>| #[trigger]
                is_nearest_root(m.git_roots, cwd, other) && name == basename_of(other) {
                let other = choose|other: Seq<char>| #[trigger]
                    is_nearest_root(m.git_roots, cwd, other) && name == basename_of(other);
                lemma_one_nearest(m.git_roots, cwd, root, other);
            }
        },
        None => {},
    }
}

/// The name of the root that a directory is found to be under is that of its alias, or else of its
/// nearest root, whether or not git has answered for the directory; there is none where it has
/// neither.
pub proof fn law_nearest_root_is_found(m: Model, cwd: Seq<char>, name: Seq<char>)
    ensures
        m.find_git_root(cwd) == Some(name) <==> if m.root_aliases.contains_key(cwd) {
            name == basename_of(m.root_aliases[cwd])
        } else {
            exists|root: Seq<char>| #[trigger]
                is_nearest_root(m.git_roots, cwd, root) && name == basename_of(root)
        },
{
    law_caches_call_directories(
        Model {
            not_git: m.not_git.remove(cwd),
            resolved_cwds: m.resolved_cwds.insert(cwd),
            ..m
        },
        cwd,
        name,
    );
}

/// What is found above a directory is trusted for it if and only if the directory is a root, has an
/// alias, or has been answered for; what is known of other directories makes no difference.
pub proof fn law_trust_is_in_the_directory_itself(m: Model, cwd: Seq<char>)
    ensures
        m.can_trust_git_root(cwd) <==> m.git_roots.contains(cwd) || m.root_aliases.contains_key(cwd)
            || m.resolved_cwds.contains(cwd),
{
}

// ── Reports ────────────────────────────────────────────────────────────────

/// The report of a terminal's directory.
pub open spec fn reports(id: u32, cwd: CwdView) -> EventView {
    EventView::CwdChanged(PaneId::Terminal(id), cwd)
}

/// Whether a state is as it was, but that a tab has a base name, shows it, and has been renamed if
/// and only if it showed another name.
pub open spec fn is_named(before: Model, tab_id: usize, name: Seq<char>, after: Model) -> bool {
    let shown = before.compose_rendered_name(tab_id, name);
    after == Model {
        base_names: before.base_names.insert(tab_id, name),
        rendered_names: before.rendered_names.insert(tab_id, shown),
        effects: if before.rendered_names.get(tab_id) == Some(shown) {
            before.effects
        } else {
            before.effects.push(EffectView::RenameTab { tab_id, name: shown })
        },
        ..before
    }
}

proof fn lemma_apply_is_named(m: Model, tab_id: usize, name: Seq<char>)
    ensures
        is_named(m, tab_id, name, m.apply_name(tab_id, name)),
{
    let shown = m.compose_rendered_name(tab_id, name);
    if m.rendered_names.get(tab_id) == Some(shown) {
        assert(m.rendered_names.insert(tab_id, shown) =~= m.rendered_names);
    }
}

/// The state in which a tab is in a directory.
pub open spec fn in_directory(m: Model, tab_id: usize, cwd: CwdView) -> Model {
    Model { tab_cwds: m.tab_cwds.insert(tab_id, cwd), ..m }
}

/// Before its tab is known, the report of a terminal is the last of those that wait, and the only
/// one about it; nothing else changes.
pub proof fn law_report_waits_for_its_tab(m: Model, id: u32, cwd: CwdView)
    requires
        m.got_permissions,
        !m.pane_to_tab.contains_key(id),
    ensures
        m.handle(reports(id, cwd)) == (Model {
            pending_cwds: m.pending_cwds.filter(|entry: (u32, CwdView)| entry.0 != id).push(
                (id, cwd),
            ),
            ..m
        }),
{
    assert((|entry: (u32, CwdView)| entry.0 != id) =~= not_about(id));
}

/// A directory without text changes nothing.
pub proof fn law_report_without_text_changes_nothing(m: Model, id: u32, cwd: CwdView)
    requires
        m.got_permissions,
        m.pane_to_tab.contains_key(id),
        cwd.text.len() == 0,
    ensures
        m.handle(reports(id, cwd)) == m,
{
}

/// Without git detection the tab of a reporting terminal is named after the directory at once, and
/// nothing else changes.
pub proof fn law_report_names_without_git(m: Model, id: u32, cwd: CwdView)
    requires
        m.got_permissions,
        m.pane_to_tab.contains_key(id),
        cwd.text.len() > 0,
        !m.git_detection,
    ensures
        is_named(
            in_directory(m, m.pane_to_tab[id], cwd),
            m.pane_to_tab[id],
            plain_name(m.home_dir, cwd.text),
            m.handle(reports(id, cwd)),
        ),
{
    lemma_apply_is_named(
        in_directory(m, m.pane_to_tab[id], cwd),
        m.pane_to_tab[id],
        plain_name(m.home_dir, cwd.text),
    );
}

/// With git detection, while git is being asked about the directory, the tab of a reporting terminal
/// joins those that wait, once; nothing else changes.
pub proof fn law_report_joins_the_waiters(m: Model, id: u32, cwd: CwdView)
    requires
        m.got_permissions,
        m.pane_to_tab.contains_key(id),
        cwd.text.len() > 0,
        m.git_detection,
        m.pending_git.contains_key(cwd.text),
    ensures
        ({
            let tab_id = m.pane_to_tab[id];
            let waiters = m.pending_git[cwd.text];
            m.handle(reports(id, cwd)) == Model {
                pending_git: if waiters.contains(tab_id) {
                    m.pending_git
                } else {
                    m.pending_git.insert(cwd.text, waiters.push(tab_id))
                },
                ..in_directory(m, tab_id, cwd)
            }
        }),
{
}

/// With git detection, a directory that is in none of the four caches, and that git is not being
/// asked about, is asked about: once, in that directory, with its text as the context. The tab waits
/// for the answer, and no name changes, whichever roots are known above the directory.
pub proof fn law_unknown_directory_is_asked_about(m: Model, id: u32, cwd: CwdView)
    requires
        m.got_permissions,
        m.pane_to_tab.contains_key(id),
        cwd.text.len() > 0,
        m.git_detection,
        !m.pending_git.contains_key(cwd.text),
        !m.git_roots.contains(cwd.text),
        !m.root_aliases.contains_key(cwd.text),
        !m.resolved_cwds.contains(cwd.text),
        !m.not_git.contains(cwd.text),
    ensures
        m.handle(reports(id, cwd)) == (Model {
            pending_git: m.pending_git.insert(cwd.text, seq![m.pane_to_tab[id]]),
            effects: m.effects.push(
                EffectView::RunGit { cwd, context: map!["cwd"@ => cwd.text] },
            ),
            ..in_directory(m, m.pane_to_tab[id], cwd)
        }),
{
}

/// With git detection, a directory that the caches call by a name, and that git is not being asked
/// about, names the tab of a reporting terminal at once; nothing else changes.
pub proof fn law_known_directory_names_at_once(m: Model, id: u32, cwd: CwdView, name: Seq<char>)
    requires
        m.got_permissions,
        m.pane_to_tab.contains_key(id),
        cwd.text.len() > 0,
        m.git_detection,
        !m.pending_git.contains_key(cwd.text),
        is_called(m, cwd.text, name),
    ensures
        is_named(
            in_directory(m, m.pane_to_tab[id], cwd),
            m.pane_to_tab[id],
            name,
            m.handle(reports(id, cwd)),
        ),
{
    let entered = in_directory(m, m.pane_to_tab[id], cwd);
    law_caches_call_directories(m, cwd.text, name);
    assert(entered.cached_name(cwd.text) == m.cached_name(cwd.text));
    lemma_apply_is_named(entered, m.pane_to_tab[id], name);
}

/// A root is called by its own name, whichever roots lie above it, unless git has said otherwise of
/// it.
pub proof fn law_roots_are_called_by_their_own_name(m: Model, cwd: Seq<char>)
    requires
        m.git_roots.contains(cwd),
        !m.not_git.contains(cwd),
        !m.root_aliases.contains_key(cwd),
    ensures
        is_called(m, cwd, basename_of(cwd)),
{
    lemma_ancestors_first(cwd);
    assert(ancestors_of(cwd)[0] == cwd);
    assert(is_nearest_root(m.git_roots, cwd, cwd));
}

// ── Answers ────────────────────────────────────────────────────────────────

/// The root that git has answered with: what it printed, without the white space around it, where it
/// ended with zero and that is not empty.
pub open spec fn answered_root(exit_code: Option<i32>, output: Seq<char>) -> Option<Seq<char>> {
    if exit_code == Some(0i32) && trimmed(output).len() > 0 {
        Some(trimmed(output))
    } else {
        None
    }
}

/// The result of a command whose context names a directory is git's answer on that directory; one
/// whose context names none changes nothing.
pub proof fn law_results_are_answers(
    m: Model,
    exit_code: Option<i32>,
    stdout: Seq<u8>,
    context: Map<Seq<char>, Seq<char>>,
)
    requires
        m.got_permissions,
    ensures
        m.handle(EventView::RunCommandResult(exit_code, stdout, context)) == match context.get(
            "cwd"@,
        ) {
            Some(cwd) => m.on_git_verdict(cwd, answered_root(exit_code, utf8_lossy(stdout))),
            None => m,
        },
{
}

/// The entries of all four caches.
pub open spec fn entries(
    git_roots: Set<Seq<char>>,
    not_git: Set<Seq<char>>,
    root_aliases: Map<Seq<char>, Seq<char>>,
    resolved_cwds: Set<Seq<char>>,
) -> nat {
    git_roots.len() + not_git.len() + root_aliases.dom().len() + resolved_cwds.len()
}

/// Whether the caches of a state are given ones with git's answer on a directory in them: a root as
/// a root, as its alias where it is none of its ancestors, and as answered for; or that it is
/// outside git.
pub open spec fn has_answer(
    after: Model,
    git_roots: Set<Seq<char>>,
    not_git: Set<Seq<char>>,
    root_aliases: Map<Seq<char>, Seq<char>>,
    resolved_cwds: Set<Seq<char>>,
    cwd: Seq<char>,
    root: Option<Seq<char>>,
) -> bool {
    match root {
        Some(root) => {
            &&& after.git_roots == git_roots.insert(root)
            &&& after.not_git == not_git
            &&& after.root_aliases == if ancestors_of(cwd).contains(root) {
                root_aliases
            } else {
                root_aliases.insert(cwd, root)
            }
            &&& after.resolved_cwds == resolved_cwds.insert(cwd)
        },
        None => {
            &&& after.git_roots == git_roots
            &&& after.not_git == not_git.insert(cwd)
            &&& after.root_aliases == root_aliases
            &&& after.resolved_cwds == resolved_cwds
        },
    }
}

/// The number of entries that an answer adds.
pub open spec fn added(m: Model, cwd: Seq<char>, root: Option<Seq<char>>) -> nat {
    match root {
        Some(root) => (if m.git_roots.contains(root) {
            0nat
        } else {
            1
        }) + (if ancestors_of(cwd).contains(root) || m.root_aliases.contains_key(cwd) {
            0nat
        } else {
            1
        }) + (if m.resolved_cwds.contains(cwd) {
            0nat
        } else {
            1
        }),
        None => if m.not_git.contains(cwd) {
            0
        } else {
            1
        },
    }
}

/// An answer is put into the caches; where they hold 4096 entries, or the answer would take them
/// past that, it alone is left in them.
pub proof fn law_answers_go_into_the_caches(m: Model, cwd: Seq<char>, root: Option<Seq<char>>)
    requires
        m.git_roots.finite(),
        m.not_git.finite(),
        m.root_aliases.dom().finite(),
        m.resolved_cwds.finite(),
    ensures
        ({
            let after = m.on_git_verdict(cwd, root);
            let held = entries(m.git_roots, m.not_git, m.root_aliases, m.resolved_cwds);
            if held >= 4096 || held + added(m, cwd, root) > 4096 {
                has_answer(
                    after,
                    Set::empty(),
                    Set::empty(),
                    Map::empty(),
                    Set::empty(),
                    cwd,
                    root,
                )
            } else {
                has_answer(
                    after,
                    m.git_roots,
                    m.not_git,
                    m.root_aliases,
                    m.resolved_cwds,
                    cwd,
                    root,
                )
            }
        }),
{
    lemma_resolve_frame(m.take_verdict(cwd, root), m.waiters(cwd));
    if root is Some {
        let r = root->0;
        assert(m.root_aliases.insert(cwd, r).dom() =~= m.root_aliases.dom().insert(cwd));
        if m.root_aliases.contains_key(cwd) {
            assert(m.root_aliases.dom().insert(cwd) =~= m.root_aliases.dom());
        }
        if m.git_roots.contains(r) {
            assert(m.git_roots.insert(r) =~= m.git_roots);
        }
        if m.resolved_cwds.contains(cwd) {
            assert(m.resolved_cwds.insert(cwd) =~= m.resolved_cwds);
        }
    } else if m.not_git.contains(cwd) {
        assert(m.not_git.insert(cwd) =~= m.not_git);
    }
    assert(m.record_verdict(cwd, root).git_cache_len() == m.git_cache_len() + added(m, cwd, root));
    assert(m.without_waiters(cwd).record_verdict(cwd, root).git_cache_len() == m.record_verdict(
        cwd,
        root,
    ).git_cache_len());
}

/// Once an answer has come nobody waits for it, and nothing changes but the caches and the names of
/// those who did wait.
pub proof fn law_answer_leaves_the_rest(m: Model, cwd: Seq<char>, root: Option<Seq<char>>)
    ensures
        ({
            let after = m.on_git_verdict(cwd, root);
            after == Model {
                effects: after.effects,
                base_names: after.base_names,
                rendered_names: after.rendered_names,
                git_roots: after.git_roots,
                not_git: after.not_git,
                root_aliases: after.root_aliases,
                resolved_cwds: after.resolved_cwds,
                pending_git: m.pending_git.remove(cwd),
                ..m
            }
        }),
{
    lemma_resolve_frame(m.take_verdict(cwd, root), m.waiters(cwd));
}

/// Whether a tab waits for git's answer on a directory, and is itself in some directory.
pub open spec fn waits_for(m: Model, cwd: Seq<char>, tab_id: usize) -> bool {
    &&& m.pending_git.contains_key(cwd)
    &&& m.pending_git[cwd].contains(tab_id)
    &&& m.tab_cwds.contains_key(tab_id)
}

/// Naming tabs that waited changes names alone.
proof fn lemma_resolve_frame(m: Model, waiters: Seq<usize>)
    ensures
        m.resolve_waiters(waiters) == (Model {
            effects: m.resolve_waiters(waiters).effects,
            base_names: m.resolve_waiters(waiters).base_names,
            rendered_names: m.resolve_waiters(waiters).rendered_names,
            ..m
        }),
    decreases waiters.len(),
{
    if waiters.len() > 0 {
        lemma_resolve_frame(m, waiters.drop_last());
    }
}

proof fn lemma_resolved_name(m: Model, waiters: Seq<usize>, tab_id: usize)
    ensures
        ({
            let after = m.resolve_waiters(waiters);
            let name = m.cached_name(m.tab_cwds[tab_id].text);
            if waiters.contains(tab_id) && m.tab_cwds.contains_key(tab_id) && name is Some {
                &&& after.base_names.get(tab_id) == name
                &&& after.rendered_names.get(tab_id) == Some(
                    m.compose_rendered_name(tab_id, name->0),
                )
            } else {
                &&& after.base_names.get(tab_id) == m.base_names.get(tab_id)
                &&& after.rendered_names.get(tab_id) == m.rendered_names.get(tab_id)
            }
        }),
    decreases waiters.len(),
{
    if waiters.len() > 0 {
        let rest = waiters.drop_last();
        let last = waiters.last();
        let before = m.resolve_waiters(rest);
        lemma_resolved_name(m, rest, tab_id);
        lemma_resolve_frame(m, rest);
        assert(waiters =~= rest.push(last));
        assert(waiters.contains(tab_id) <==> rest.contains(tab_id) || last == tab_id) by {
            if rest.contains(tab_id) {
                let i = choose|i: int| 0 <= i < rest.len() && rest[i] == tab_id;
                assert(waiters[i] == tab_id);
            }
            if waiters.contains(tab_id) && last != tab_id {
                let i = choose|i: int| 0 <= i < waiters.len() && waiters[i] == tab_id;
                assert(rest[i] == tab_id);
            }
            assert(waiters[waiters.len() - 1] == last);
        }
        let here = m.tab_cwds[last].text;
        assert(before.cached_name(here) == m.cached_name(here));
        if m.tab_cwds.contains_key(last) && m.cached_name(here) is Some {
            let name = m.cached_name(here)->0;
            lemma_apply_is_named(before, last, name);
            assert(before.compose_rendered_name(last, name) == m.compose_rendered_name(last, name));
        }
    }
}

/// Once an answer has come, each tab that waited for it has the name that the caches now call the
/// directory by which it is in, and shows it; where they call it by none, and for every other tab,
/// names stay.
pub proof fn law_waiters_are_called_by_their_directory(
    m: Model,
    cwd: Seq<char>,
    root: Option<Seq<char>>,
    tab_id: usize,
)
    ensures
        ({
            let after = m.on_git_verdict(cwd, root);
            let here = m.tab_cwds[tab_id].text;
            &&& forall|name: Seq<char>| #[trigger]
                is_called(after, here, name) && waits_for(m, cwd, tab_id)
                    ==> after.base_names.get(tab_id) == Some(name) && after.rendered_names.get(
                    tab_id,
                ) == Some(m.compose_rendered_name(tab_id, name))
            &&& !waits_for(m, cwd, tab_id) || !(exists|name: Seq<char>| #[trigger]
                is_called(after, here, name)) ==> after.base_names.get(tab_id)
                == m.base_names.get(tab_id) && after.rendered_names.get(tab_id)
                == m.rendered_names.get(tab_id)
        }),
{
    let recorded = m.take_verdict(cwd, root);
    let after = m.on_git_verdict(cwd, root);
    let here = m.tab_cwds[tab_id].text;
    lemma_resolve_frame(recorded, m.waiters(cwd));
    lemma_resolved_name(recorded, m.waiters(cwd), tab_id);
    assert(after.cached_name(here) == recorded.cached_name(here));
    assert forall|name: Seq<char>| #[trigger] is_called(after, here, name) == (after.cached_name(
        here,
    ) == Some(name)) by {
        law_caches_call_directories(after, here, name);
    }
    if recorded.cached_name(here) is Some {
        assert(is_called(after, here, recorded.cached_name(here)->0));
    }
}

/// Once an answer has come, all that is done, after what was to be done before, is to rename tabs
/// that waited for it.
pub proof fn law_answer_renames_waiters_only(
    m: Model,
    cwd: Seq<char>,
    root: Option<Seq<char>>,
    k: int,
)
    requires
        0 <= k < m.on_git_verdict(cwd, root).effects.len(),
    ensures
        k < m.effects.len() ==> m.on_git_verdict(cwd, root).effects[k] == m.effects[k],
        k >= m.effects.len() ==> (m.on_git_verdict(cwd, root).effects[k] matches
            EffectView::RenameTab { tab_id, name } && waits_for(m, cwd, tab_id)),
{
    lemma_resolve_renames(m.take_verdict(cwd, root), m.waiters(cwd), k);
}

/// Once an answer has come, tabs are renamed in the order in which they came to wait for it.
pub proof fn law_waiters_are_renamed_in_order(
    m: Model,
    cwd: Seq<char>,
    root: Option<Seq<char>>,
    k: int,
    l: int,
)
    requires
        m.effects.len() <= k < l < m.on_git_verdict(cwd, root).effects.len(),
    ensures
        ({
            let after = m.on_git_verdict(cwd, root);
            let waiters = m.pending_git[cwd];
            exists|i: int, j: int|
                0 <= i < j < waiters.len() && #[trigger] waiters[i] == after.effects[k]->tab_id
                    && #[trigger] waiters[j] == after.effects[l]->tab_id
        }),
{
    lemma_resolve_renames(m.take_verdict(cwd, root), m.waiters(cwd), k);
    lemma_resolve_in_order(m.take_verdict(cwd, root), m.waiters(cwd), k, l);
}

proof fn lemma_resolve_in_order(m: Model, waiters: Seq<usize>, k: int, l: int)
    requires
        m.effects.len() <= k < l < m.resolve_waiters(waiters).effects.len(),
    ensures
        exists|i: int, j: int|
            0 <= i < j < waiters.len() && #[trigger] waiters[i] == m.resolve_waiters(
                waiters,
            ).effects[k]->tab_id && #[trigger] waiters[j] == m.resolve_waiters(
                waiters,
            ).effects[l]->tab_id,
    decreases waiters.len(),
{
    if waiters.len() > 0 {
        let rest = waiters.drop_last();
        let n = rest.len() as int;
        let before = m.resolve_waiters(rest);
        let after = m.resolve_waiters(waiters);
        if l < before.effects.len() {
            lemma_resolve_in_order(m, rest, k, l);
            let (i, j) = choose|i: int, j: int|
                0 <= i < j < rest.len() && #[trigger] rest[i] == before.effects[k]->tab_id
                    && #[trigger] rest[j] == before.effects[l]->tab_id;
            assert(waiters[i] == after.effects[k]->tab_id && waiters[j]
                == after.effects[l]->tab_id);
        } else {
            lemma_resolve_renames(m, rest, k);
            let i = choose|i: int| 0 <= i < rest.len() && rest[i] == before.effects[k]->tab_id;
            assert(waiters[i] == after.effects[k]->tab_id && waiters[n]
                == after.effects[l]->tab_id);
        }
    }
}

proof fn lemma_resolve_renames(m: Model, waiters: Seq<usize>, k: int)
    ensures
        m.effects.len() <= m.resolve_waiters(waiters).effects.len(),
        0 <= k < m.effects.len() ==> m.resolve_waiters(waiters).effects[k] == m.effects[k],
        m.effects.len() <= k < m.resolve_waiters(waiters).effects.len() ==> (m.resolve_waiters(
            waiters,
        ).effects[k] matches EffectView::RenameTab { tab_id, name } && waiters.contains(tab_id)
            && m.tab_cwds.contains_key(tab_id)),
    decreases waiters.len(),
{
    if waiters.len() > 0 {
        let rest = waiters.drop_last();
        lemma_resolve_renames(m, rest, k);
        lemma_resolve_frame(m, rest);
        let before = m.resolve_waiters(rest);
        if m.effects.len() <= k < before.effects.len() {
            let tab_id = before.effects[k]->tab_id;
            let i = choose|i: int| 0 <= i < rest.len() && rest[i] == tab_id;
            assert(waiters[i] == tab_id);
        }
        assert(waiters.contains(waiters.last())) by {
            assert(waiters[waiters.len() - 1] == waiters.last());
        }
    }
}

} // verus!
