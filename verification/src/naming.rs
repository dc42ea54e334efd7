//! Names: how they are composed, sent and decorated.

use crate::events::Effect;
use crate::maps::TextMap;
use crate::model::{text_for, Decoration, Model};
use crate::paths::basename;
use crate::state::State;
use crate::text::{decimal, parse_usize, replace_all, same_text};
use vstd::prelude::*;
use vstd::string::StringExecFns;

verus! {

impl State {
    /// The rendered name of a tab: prefix, base name, suffix and pane count suffix.
    pub fn compose_rendered_name(&self, tab_id: usize, base_name: &str) -> (name: String)
        ensures
            name@ == self@.compose_rendered_name(tab_id, base_name@),
    {
        let mut name = match self.tab_prefixes.get(tab_id) {
            Some(prefix) => prefix.clone(),
            None => String::new(),
        };
        name.append(base_name);
        match self.tab_suffixes.get(tab_id) {
            Some(suffix) => {
                name.append(suffix.as_str());
            },
            None => {
                assert(name@ + Seq::<char>::empty() =~= name@);
            },
        }
        let pane_count: usize = match self.tab_pane_counts.get(tab_id) {
            Some(count) => *count,
            None => 1,
        };
        match &self.pane_count_format {
            Some(format) if pane_count > 1 => {
                proof {
                    reveal_strlit("{pane_count}");
                }
                let count = decimal(pane_count);
                name.append(
                    replace_all(format.as_str(), "{pane_count}", count.as_str()).as_str(),
                );
            },
            _ => {
                assert(name@ + Seq::<char>::empty() =~= name@);
            },
        }
        name
    }

    /// Renames the tab, unless it has no base name or the name is already displayed.
    pub fn refresh_tab_name(&mut self, tab_id: usize)
        ensures
            final(self)@ == old(self)@.refresh_tab_name(tab_id),
    {
        let name = match self.base_names.get(tab_id) {
            Some(base_name) => self.compose_rendered_name(tab_id, base_name.as_str()),
            None => {
                return;
            },
        };
        let displayed = match self.rendered_names.get(tab_id) {
            Some(rendered) => *rendered == name,
            None => false,
        };
        if displayed {
            return;
        }
        self.emit(Effect::RenameTab { tab_id, name: name.clone() });
        self.rendered_names.insert(tab_id, name);
        assert(self@ =~= old(self)@.refresh_tab_name(tab_id));
    }

    /// Gives the tab a base name.
    pub fn apply_name(&mut self, tab_id: usize, base_name: String)
        ensures
            final(self)@ == old(self)@.apply_name(tab_id, base_name@),
    {
        self.base_names.insert(tab_id, base_name);
        assert(self@ =~= (Model {
            base_names: old(self)@.base_names.insert(tab_id, base_name@),
            ..old(self)@
        }));
        self.refresh_tab_name(tab_id);
    }

    /// The name that a directory gives outside git.
    pub fn derive_name(&self, cwd: &str) -> (name: String)
        ensures
            name@ == self@.derive_name(cwd@),
    {
        if !self.home_dir.as_str().is_empty() && same_text(cwd, self.home_dir.as_str()) {
            proof {
                reveal_strlit("~");
                assert("~"@ =~= seq!['~']);
            }
            "~".to_owned()
        } else {
            basename(cwd)
        }
    }

    /// The tab that a pipe message is about.
    pub fn resolve_tab_id(&self, args: &TextMap<String>) -> (tab_id: Option<usize>)
        ensures
            tab_id == self@.resolve_tab_id(args@),
    {
        match args.get("tab_id") {
            Some(id) => if same_text(id.as_str(), "active") {
                self.active_tab_id
            } else {
                parse_usize(id.as_str())
            },
            None => self.active_tab_id,
        }
    }

    /// Sets or, with an empty value, clears a decoration of the tab that the arguments give.
    pub fn set_decoration(
        &mut self,
        args: &TextMap<String>,
        decoration: Decoration,
        value: String,
    )
        ensures
            final(self)@ == old(self)@.set_decoration(args@, decoration, value@),
    {
        let tab_id: usize = match self.resolve_tab_id(args) {
            Some(tab_id) => tab_id,
            None => {
                return;
            },
        };
        let ghost text = value@;
        let current = match decoration {
            Decoration::Prefix => self.tab_prefixes.get(tab_id),
            Decoration::Suffix => self.tab_suffixes.get(tab_id),
        };
        let unchanged = match current {
            Some(current) => *current == value,
            None => value.as_str().is_empty(),
        };
        if unchanged {
            assert(value@ =~= text_for(self@.decorations(decoration), tab_id));
            return;
        }
        let ghost map = self@.decorations(decoration);
        if value.as_str().is_empty() {
            match decoration {
                Decoration::Prefix => {
                    let _ = self.tab_prefixes.remove(tab_id);
                },
                Decoration::Suffix => {
                    let _ = self.tab_suffixes.remove(tab_id);
                },
            }
            assert(self@ =~= old(self)@.with_decorations(decoration, map.remove(tab_id)));
        } else {
            match decoration {
                Decoration::Prefix => {
                    self.tab_prefixes.insert(tab_id, value);
                },
                Decoration::Suffix => {
                    self.tab_suffixes.insert(tab_id, value);
                },
            }
            assert(self@ =~= old(self)@.with_decorations(decoration, map.insert(tab_id, text)));
        }
        self.refresh_tab_name(tab_id);
    }

    /// Clears both decorations of the tab that the arguments give.
    pub(crate) fn clear_all(&mut self, args: &TextMap<String>)
        ensures
            final(self)@ == old(self)@.clear_all(args@),
    {
        match self.resolve_tab_id(args) {
            Some(tab_id) => {
                let had_prefix = self.tab_prefixes.remove(tab_id);
                let had_suffix = self.tab_suffixes.remove(tab_id);
                proof {
                    let before = old(self)@;
                    assert(self@ =~= (Model {
                        tab_prefixes: before.tab_prefixes.remove(tab_id),
                        tab_suffixes: before.tab_suffixes.remove(tab_id),
                        ..before
                    }));
                    if !had_prefix && !had_suffix {
                        assert(before.tab_prefixes.remove(tab_id) =~= before.tab_prefixes);
                        assert(before.tab_suffixes.remove(tab_id) =~= before.tab_suffixes);
                        assert(self@ =~= before);
                    }
                }
                if had_prefix || had_suffix {
                    self.refresh_tab_name(tab_id);
                }
            },
            None => {},
        }
    }
}

/// The value that the arguments of a pipe message give, or nothing.
pub(crate) fn value_of(args: &TextMap<String>) -> (value: String)
    ensures
        value@ == if args@.contains_key("value"@) {
            args@["value"@]
        } else {
            Seq::empty()
        },
{
    match args.get("value") {
        Some(value) => value.clone(),
        None => String::new(),
    }
}

} // verus!
