//! The interactive entry/edit state machine: a multi-field wizard
//! (date, description, category, price) over the record store, with
//! validation, abort rules, history-assisted autocomplete, and generic
//! list navigation.

use vstd::prelude::*;
use crate::history::{filter_prefix, filtered, lemma_filtered_props};
use crate::navigate::{
    nav_op_apply, navigate_down, navigate_end, navigate_home, navigate_up, sel_in_range, NavOp,
};
use crate::record::DbItem;
use crate::sort::{lemma_sort_by_date_ensures, sort_by_date, sorted_by_date};
use crate::store::{
    all_wf, contains_id, idx_of_id, strictly_sorted, unique_ids, with_id, Store, StoreError,
};
use crate::text::{trim_spec, trim_str};
use crate::util::{
    format_price, format_price_spec, parse_date, parse_date_strict, parse_price, parse_price_spec, today,
    valid_date_str,
};

verus! {

/// Which field of the wizard is being typed; `Browse` is the table view.
#[derive(Clone, Copy, Debug, PartialEq, Eq, Structural)]
pub enum AppState {
    Browse,
    InsertDate,
    InsertDescription,
    InsertCategory,
    InsertPrice,
}

/// The whole interactive state: current wizard step, the live text buffer,
/// the table and history selections, the in-progress field values, the
/// optional record being edited, and the record store with its cached
/// distinct value lists.
pub struct App {
    pub state: AppState,
    pub table_sel: Option<usize>,
    pub list_sel: Option<usize>,
    pub buffer: String,
    pub item_template: Option<DbItem>,
    pub date: String,
    pub description: String,
    pub category: String,
    pub store: Store,
    pub history: Vec<String>,
    pub distinct_categories: Vec<String>,
    pub distinct_descriptions: Vec<String>,
}

impl App {
    pub open spec fn recs(self) -> Seq<DbItem> {
        self.store.recs()
    }

    /// The cached distinct lists agree with the store.
    pub open spec fn distinct_ok(self) -> bool {
        &&& strictly_sorted(self.distinct_categories.deep_view())
        &&& (forall|y: Seq<char>|
            self.distinct_categories.deep_view().contains(y) <==> exists|k: int|
                0 <= k < self.recs().len() && (#[trigger] self.recs()[k]).category@ == y)
        &&& strictly_sorted(self.distinct_descriptions.deep_view())
        &&& (forall|y: Seq<char>|
            self.distinct_descriptions.deep_view().contains(y) <==> exists|k: int|
                0 <= k < self.recs().len() && (#[trigger] self.recs()[k]).description@ == y)
    }

    /// The candidate list is exactly the matching distinct values filtered
    /// by the trimmed buffer; outside the autocomplete states it is empty.
    pub open spec fn history_ok(self) -> bool {
        match self.state {
            AppState::InsertDescription => self.history.deep_view() == filtered(
                self.distinct_descriptions.deep_view(),
                trim_spec(self.buffer@),
            ),
            AppState::InsertCategory => self.history.deep_view() == filtered(
                self.distinct_categories.deep_view(),
                trim_spec(self.buffer@),
            ),
            _ => self.history@.len() == 0,
        }
    }

    pub open spec fn wf(self) -> bool {
        &&& self.store.wf()
        &&& sel_in_range(self.recs().len(), self.table_sel)
        &&& sel_in_range(self.history@.len(), self.list_sel)
        &&& self.distinct_ok()
        &&& self.history_ok()
        &&& match self.item_template {
            Some(t) => self.state != AppState::Browse && t.wf() && contains_id(
                self.recs(),
                t.id,
            ),
            None => true,
        }
        &&& (self.state == AppState::Browse ==> self.buffer@.len() == 0 && self.date@.len() == 0
            && self.description@.len() == 0 && self.category@.len() == 0)
        &&& match self.state {
            AppState::InsertDescription | AppState::InsertCategory | AppState::InsertPrice
                => valid_date_str(self.date@),
            _ => true,
        }
    }

    /// A fresh machine: browsing an empty store.
    pub fn new() -> (a: App)
        ensures
            a.wf(),
            a.state == AppState::Browse,
            a.recs().len() == 0,
            a.table_sel.is_none(),
            a.list_sel.is_none(),
            a.item_template.is_none(),
            a.history@.len() == 0,
    {
        App {
            state: AppState::Browse,
            table_sel: None,
            list_sel: None,
            buffer: String::new(),
            item_template: None,
            date: String::new(),
            description: String::new(),
            category: String::new(),
            store: Store::new(),
            history: Vec::new(),
            distinct_categories: Vec::new(),
            distinct_descriptions: Vec::new(),
        }
    }

    /// The buffer's text with surrounding whitespace removed.
    pub fn get_text<'a>(&'a self) -> (r: &'a str)
        ensures
            r@ == trim_spec(self.buffer@),
    {
        trim_str(self.buffer.as_str())
    }

    /// Recomputes the candidate list from the distinct values and the
    /// trimmed buffer; a single remaining candidate is auto-selected,
    /// anything else clears the selection.
    pub fn update_history(&mut self)
        ensures
            final(self).state == old(self).state,
            final(self).buffer == old(self).buffer,
            final(self).item_template == old(self).item_template,
            final(self).store == old(self).store,
            final(self).table_sel == old(self).table_sel,
            final(self).date == old(self).date,
            final(self).description == old(self).description,
            final(self).category == old(self).category,
            final(self).distinct_categories == old(self).distinct_categories,
            final(self).distinct_descriptions == old(self).distinct_descriptions,
            match old(self).state {
                AppState::InsertDescription => {
                    &&& final(self).history.deep_view() == filtered(
                        old(self).distinct_descriptions.deep_view(),
                        trim_spec(old(self).buffer@),
                    )
                    &&& final(self).list_sel == (if final(self).history@.len() == 1 {
                        Some(0usize)
                    } else {
                        None::<usize>
                    })
                },
                AppState::InsertCategory => {
                    &&& final(self).history.deep_view() == filtered(
                        old(self).distinct_categories.deep_view(),
                        trim_spec(old(self).buffer@),
                    )
                    &&& final(self).list_sel == (if final(self).history@.len() == 1 {
                        Some(0usize)
                    } else {
                        None::<usize>
                    })
                },
                _ => {
                    &&& final(self).history@.len() == 0
                    &&& final(self).list_sel == (if old(self).history@.len() > 0 {
                        None::<usize>
                    } else {
                        old(self).list_sel
                    })
                },
            },
    {
        match self.state {
            AppState::InsertDescription | AppState::InsertCategory => {},
            _ => {
                if self.history.len() > 0 {
                    self.history = Vec::new();
                    self.list_sel = None;
                }
                return ;
            },
        }
        let text = trim_str(self.buffer.as_str());
        let h = match self.state {
            AppState::InsertCategory => filter_prefix(&self.distinct_categories, text),
            _ => filter_prefix(&self.distinct_descriptions, text),
        };
        self.history = h;
        if self.history.len() == 1 {
            self.list_sel = Some(0);
        } else {
            self.list_sel = None;
        }
    }

    /// Switches to `state`: a no-op when already there, otherwise the
    /// buffer is reset, entering `Browse` discards the in-progress entry
    /// and the edit template, and the candidate list is recomputed.
    pub fn transition(&mut self, state: AppState)
        requires
            old(self).wf(),
            (state == AppState::InsertDescription || state == AppState::InsertCategory || state
                == AppState::InsertPrice) ==> valid_date_str(old(self).date@),
        ensures
            final(self).wf(),
            state == old(self).state ==> *final(self) == *old(self),
            state != old(self).state ==> {
                &&& final(self).state == state
                &&& final(self).buffer@.len() == 0
                &&& final(self).store == old(self).store
                &&& final(self).table_sel == old(self).table_sel
                &&& final(self).distinct_categories == old(self).distinct_categories
                &&& final(self).distinct_descriptions == old(self).distinct_descriptions
                &&& (state == AppState::Browse ==> final(self).item_template.is_none()
                    && final(self).date@.len() == 0 && final(self).description@.len() == 0
                    && final(self).category@.len() == 0)
                &&& (state != AppState::Browse ==> final(self).item_template
                    == old(self).item_template && final(self).date == old(self).date
                    && final(self).description == old(self).description && final(self).category
                    == old(self).category)
            },
    {
        if self.state == state {
            return ;
        }
        self.state = state;
        self.buffer = String::new();
        match state {
            AppState::Browse => {
                self.item_template = None;
                self.date = String::new();
                self.description = String::new();
                self.category = String::new();
            },
            _ => {},
        }
        self.update_history();
        proof {
            assert(self.store.wf());
            assert(sel_in_range(self.recs().len(), self.table_sel));
            assert(sel_in_range(self.history@.len(), self.list_sel));
            assert(self.distinct_ok());
            assert(self.history_ok());
            assert(match self.item_template {
                Some(t) => self.state != AppState::Browse && t.wf() && contains_id(
                    self.recs(),
                    t.id,
                ),
                None => true,
            });
            assert(self.state == AppState::Browse ==> self.buffer@.len() == 0 && self.date@.len()
                == 0 && self.description@.len() == 0 && self.category@.len() == 0);
            assert(self.wf());
        }
    }

    /// Universal abort: returns to browsing and unconditionally discards
    /// the in-progress entry, the buffer and the edit template, from any
    /// state and whatever the entry progress.
    pub fn escape(&mut self)
        requires
            old(self).wf(),
        ensures
            final(self).wf(),
            final(self).state == AppState::Browse,
            final(self).item_template.is_none(),
            final(self).buffer@.len() == 0,
            final(self).date@.len() == 0,
            final(self).description@.len() == 0,
            final(self).category@.len() == 0,
            final(self).history@.len() == 0,
            final(self).store == old(self).store,
            final(self).table_sel == old(self).table_sel,
            final(self).distinct_categories == old(self).distinct_categories,
            final(self).distinct_descriptions == old(self).distinct_descriptions,
    {
        self.transition(AppState::Browse);
    }

    /// Applies a buffer edit: the new text is always accepted (validation
    /// is advisory only) and the candidate list follows it.
    pub fn set_buffer(&mut self, text: String)
        requires
            old(self).wf(),
            old(self).state != AppState::Browse,
        ensures
            final(self).wf(),
            final(self).buffer == text,
            final(self).state == old(self).state,
            final(self).item_template == old(self).item_template,
            final(self).store == old(self).store,
            final(self).table_sel == old(self).table_sel,
            final(self).date == old(self).date,
            final(self).description == old(self).description,
            final(self).category == old(self).category,
            final(self).distinct_categories == old(self).distinct_categories,
            final(self).distinct_descriptions == old(self).distinct_descriptions,
            match old(self).state {
                AppState::InsertDescription => {
                    &&& final(self).history.deep_view() == filtered(
                        old(self).distinct_descriptions.deep_view(),
                        trim_spec(text@),
                    )
                    &&& final(self).list_sel == (if final(self).history@.len() == 1 {
                        Some(0usize)
                    } else {
                        None::<usize>
                    })
                },
                AppState::InsertCategory => {
                    &&& final(self).history.deep_view() == filtered(
                        old(self).distinct_categories.deep_view(),
                        trim_spec(text@),
                    )
                    &&& final(self).list_sel == (if final(self).history@.len() == 1 {
                        Some(0usize)
                    } else {
                        None::<usize>
                    })
                },
                _ => final(self).history@.len() == 0 && final(self).list_sel == old(self).list_sel,
            },
    {
        self.buffer = text;
        self.update_history();
        proof {
            assert(self.store.wf());
            assert(sel_in_range(self.recs().len(), self.table_sel));
            assert(sel_in_range(self.history@.len(), self.list_sel));
            assert(self.distinct_ok());
            assert(self.history_ok());
            assert(match self.item_template {
                Some(t) => self.state != AppState::Browse && t.wf() && contains_id(
                    self.recs(),
                    t.id,
                ),
                None => true,
            });
            assert(self.wf());
        }
    }

    /// Routes one navigation command: to the record table while browsing,
    /// to the candidate list while choosing a description or category;
    /// elsewhere navigation keys belong to the text editor and nothing
    /// moves here.
    pub fn navigate(&mut self, op: NavOp)
        requires
            old(self).wf(),
        ensures
            final(self).wf(),
            final(self).state == old(self).state,
            final(self).buffer == old(self).buffer,
            final(self).item_template == old(self).item_template,
            final(self).store == old(self).store,
            final(self).history == old(self).history,
            final(self).date == old(self).date,
            final(self).description == old(self).description,
            final(self).category == old(self).category,
            final(self).distinct_categories == old(self).distinct_categories,
            final(self).distinct_descriptions == old(self).distinct_descriptions,
            match old(self).state {
                AppState::Browse => final(self).table_sel == nav_op_apply(
                    old(self).recs().len(),
                    old(self).table_sel,
                    op,
                ) && final(self).list_sel == old(self).list_sel,
                AppState::InsertDescription | AppState::InsertCategory => final(self).list_sel
                    == nav_op_apply(old(self).history@.len(), old(self).list_sel, op)
                    && final(self).table_sel == old(self).table_sel,
                _ => final(self).table_sel == old(self).table_sel && final(self).list_sel
                    == old(self).list_sel,
            },
    {
        match self.state {
            AppState::Browse => {
                self.table_sel = match op {
                    NavOp::Up(d) => navigate_up(&self.store.records, self.table_sel, d),
                    NavOp::Down(d) => navigate_down(&self.store.records, self.table_sel, d),
                    NavOp::Home => navigate_home(&self.store.records),
                    NavOp::End => navigate_end(&self.store.records),
                };
            },
            AppState::InsertDescription | AppState::InsertCategory => {
                self.list_sel = match op {
                    NavOp::Up(d) => navigate_up(&self.history, self.list_sel, d),
                    NavOp::Down(d) => navigate_down(&self.history, self.list_sel, d),
                    NavOp::Home => navigate_home(&self.history),
                    NavOp::End => navigate_end(&self.history),
                };
            },
            _ => {},
        }
        proof {
            assert(self.store.wf());
            assert(sel_in_range(self.recs().len(), self.table_sel));
            assert(sel_in_range(self.history@.len(), self.list_sel));
            assert(self.distinct_ok());
            assert(self.history_ok());
            assert(match self.item_template {
                Some(t) => self.state != AppState::Browse && t.wf() && contains_id(
                    self.recs(),
                    t.id,
                ),
                None => true,
            });
            assert(self.state == AppState::Browse ==> self.buffer@.len() == 0 && self.date@.len()
                == 0 && self.description@.len() == 0 && self.category@.len() == 0);
            assert(self.wf());
        }
    }

    /// Replaces the buffer wholesale with the selected candidate and
    /// recomputes the filter; with no candidate selected, or outside the
    /// autocomplete states, nothing changes.
    pub fn accept_suggestion(&mut self)
        requires
            old(self).wf(),
        ensures
            final(self).wf(),
            final(self).state == old(self).state,
            final(self).item_template == old(self).item_template,
            final(self).store == old(self).store,
            final(self).table_sel == old(self).table_sel,
            final(self).date == old(self).date,
            final(self).description == old(self).description,
            final(self).category == old(self).category,
            final(self).distinct_categories == old(self).distinct_categories,
            final(self).distinct_descriptions == old(self).distinct_descriptions,
            match old(self).state {
                AppState::InsertDescription | AppState::InsertCategory => match old(self).list_sel {
                    Some(i) => {
                        &&& final(self).buffer == old(self).history@[i as int]
                        &&& final(self).history.deep_view() == filtered(
                            (if old(self).state == AppState::InsertDescription {
                                old(self).distinct_descriptions
                            } else {
                                old(self).distinct_categories
                            }).deep_view(),
                            trim_spec(old(self).history@[i as int]@),
                        )
                        &&& final(self).list_sel == (if final(self).history@.len() == 1 {
                            Some(0usize)
                        } else {
                            None::<usize>
                        })
                    },
                    None => *final(self) == *old(self),
                },
                _ => *final(self) == *old(self),
            },
    {
        match self.state {
            AppState::InsertDescription | AppState::InsertCategory => {},
            _ => {
                return ;
            },
        }
        let i = match self.list_sel {
            Some(i) => i,
            None => {
                return ;
            },
        };
        let text = self.history[i].clone();
        self.buffer = text;
        self.update_history();
        proof {
            assert(self.history_ok());
            assert(self.wf());
        }
    }

    /// Whether the current buffer passes the current step's validation;
    /// advisory only, it never blocks editing.
    pub fn is_valid(&self) -> (r: bool)
        ensures
            r == match self.state {
                AppState::InsertDate => valid_date_str(trim_spec(self.buffer@)),
                AppState::InsertPrice => parse_price_spec(self.buffer@).is_some(),
                _ => true,
            },
    {
        match self.state {
            AppState::InsertDate => parse_date(self.buffer.as_str()).is_some(),
            AppState::InsertPrice => parse_price(self.buffer.as_str()).is_some(),
            _ => true,
        }
    }

    /// Starts a fresh entry from browsing: the wizard opens at the date
    /// step with the given text (normally today's date) preloaded.
    pub fn begin_insert(&mut self, today_text: String)
        requires
            old(self).wf(),
            old(self).state == AppState::Browse,
        ensures
            final(self).wf(),
            final(self).state == AppState::InsertDate,
            final(self).buffer == today_text,
            final(self).item_template.is_none(),
            final(self).store == old(self).store,
            final(self).table_sel == old(self).table_sel,
            final(self).history@.len() == 0,
            final(self).date@.len() == 0,
            final(self).description@.len() == 0,
            final(self).category@.len() == 0,
            final(self).distinct_categories == old(self).distinct_categories,
            final(self).distinct_descriptions == old(self).distinct_descriptions,
    {
        self.transition(AppState::InsertDate);
        self.buffer = today_text;
        proof {
            assert(self.store.wf());
            assert(sel_in_range(self.recs().len(), self.table_sel));
            assert(sel_in_range(self.history@.len(), self.list_sel));
            assert(self.distinct_ok());
            assert(self.history_ok());
            assert(match self.item_template {
                Some(t) => self.state != AppState::Browse && t.wf() && contains_id(
                    self.recs(),
                    t.id,
                ),
                None => true,
            });
            assert(self.state == AppState::Browse ==> self.buffer@.len() == 0 && self.date@.len()
                == 0 && self.description@.len() == 0 && self.category@.len() == 0);
            assert(self.wf());
        }
    }

    /// Starts a fresh entry with the system clock's current date in the
    /// buffer; apart from the buffer text this acts as `begin_insert`.
    pub fn begin_insert_today(&mut self)
        requires
            old(self).wf(),
            old(self).state == AppState::Browse,
        ensures
            final(self).wf(),
            final(self).state == AppState::InsertDate,
            final(self).item_template.is_none(),
            final(self).store == old(self).store,
            final(self).table_sel == old(self).table_sel,
            final(self).history@.len() == 0,
    {
        let t = today();
        self.begin_insert(t);
    }

    /// Starts editing the selected record: it becomes the template that
    /// prefills each wizard step, beginning with its date; with no
    /// selection nothing happens.
    pub fn begin_edit(&mut self)
        requires
            old(self).wf(),
            old(self).state == AppState::Browse,
        ensures
            final(self).wf(),
            old(self).table_sel.is_none() ==> *final(self) == *old(self),
            old(self).table_sel matches Some(i) ==> {
                &&& final(self).state == AppState::InsertDate
                &&& final(self).item_template == Some(old(self).recs()[i as int])
                &&& final(self).buffer@ == old(self).recs()[i as int].date@
                &&& final(self).store == old(self).store
                &&& final(self).table_sel == old(self).table_sel
                &&& final(self).history@.len() == 0
            },
    {
        let i = match self.table_sel {
            Some(i) => i,
            None => {
                return ;
            },
        };
        let tpl = self.store.records[i].clone();
        self.transition(AppState::InsertDate);
        self.buffer = tpl.date.clone();
        proof {
            assert(self.recs()[i as int].wf());
            assert(contains_id(self.recs(), tpl.id)) by {
                assert(self.recs()[i as int].id == tpl.id);
            }
        }
        self.item_template = Some(tpl);
        proof {
            assert(self.store.wf());
            assert(sel_in_range(self.recs().len(), self.table_sel));
            assert(sel_in_range(self.history@.len(), self.list_sel));
            assert(self.distinct_ok());
            assert(self.history_ok());
            assert(match self.item_template {
                Some(t) => self.state != AppState::Browse && t.wf() && contains_id(
                    self.recs(),
                    t.id,
                ),
                None => true,
            });
            assert(self.state == AppState::Browse ==> self.buffer@.len() == 0 && self.date@.len()
                == 0 && self.description@.len() == 0 && self.category@.len() == 0);
            assert(self.wf());
        }
    }

    /// Deletes the selected record and reloads the derived lists; the
    /// selection is re-clamped to the last valid index, or cleared when
    /// the table becomes empty. With no selection nothing happens.
    pub fn delete_selected(&mut self)
        requires
            old(self).wf(),
            old(self).state == AppState::Browse,
        ensures
            final(self).wf(),
            final(self).state == AppState::Browse,
            final(self).store.next_id == old(self).store.next_id,
            old(self).table_sel.is_none() ==> *final(self) == *old(self),
            old(self).table_sel matches Some(i) ==> {
                &&& final(self).recs() == old(self).recs().remove(i as int)
                &&& final(self).recs().len() == old(self).recs().len() - 1
                &&& final(self).table_sel == (if final(self).recs().len() == 0 {
                    None::<usize>
                } else if i as int >= final(self).recs().len() {
                    Some((final(self).recs().len() - 1) as usize)
                } else {
                    Some(i)
                })
            },
    {
        let i = match self.table_sel {
            Some(i) => i,
            None => {
                return ;
            },
        };
        let id = self.store.records[i].id;
        let ghost s = self.recs();
        let res = self.store.delete_item(id);
        proof {
            assert(contains_id(s, id)) by {
                assert(s[i as int].id == id);
            }
            assert(res.is_ok());
            assert(idx_of_id(s, id) == i as int) by {
                let k = idx_of_id(s, id);
                assert(0 <= k < s.len() && s[k].id == id);
                if k < i as int {
                    assert(s[k].id != s[i as int].id);
                } else if k > i as int {
                    assert(s[i as int].id != s[k].id);
                }
            }
        }
        self.distinct_categories = self.store.select_categories();
        self.distinct_descriptions = self.store.select_descriptions();
        self.table_sel = navigate_down(&self.store.records, self.table_sel, 0);
        proof {
            assert(self.store.wf());
            assert(sel_in_range(self.recs().len(), self.table_sel));
            assert(sel_in_range(self.history@.len(), self.list_sel));
            assert(self.distinct_ok());
            assert(self.history_ok());
            assert(match self.item_template {
                Some(t) => self.state != AppState::Browse && t.wf() && contains_id(
                    self.recs(),
                    t.id,
                ),
                None => true,
            });
            assert(self.state == AppState::Browse ==> self.buffer@.len() == 0 && self.date@.len()
                == 0 && self.description@.len() == 0 && self.category@.len() == 0);
            assert(self.wf());
        }
    }

    /// Rewrites the stored order ascending by date and keeps the table
    /// selection; the records themselves are exactly preserved, and a
    /// second consecutive resort changes nothing.
    pub fn resort(&mut self)
        requires
            old(self).wf(),
            old(self).state == AppState::Browse,
        ensures
            final(self).wf(),
            final(self).state == AppState::Browse,
            final(self).recs() == sort_by_date(old(self).recs()),
            sorted_by_date(final(self).recs()),
            final(self).recs().len() == old(self).recs().len(),
            final(self).store.next_id == old(self).store.next_id,
            final(self).table_sel == old(self).table_sel,
            final(self).item_template.is_none(),
    {
        proof {
            lemma_sort_by_date_ensures(self.recs());
        }
        self.store.sort_items();
        self.distinct_categories = self.store.select_categories();
        self.distinct_descriptions = self.store.select_descriptions();
        proof {
            assert(self.store.wf());
            assert(sel_in_range(self.recs().len(), self.table_sel));
            assert(sel_in_range(self.history@.len(), self.list_sel));
            assert(self.distinct_ok());
            assert(self.history_ok());
            assert(match self.item_template {
                Some(t) => self.state != AppState::Browse && t.wf() && contains_id(
                    self.recs(),
                    t.id,
                ),
                None => true,
            });
            assert(self.state == AppState::Browse ==> self.buffer@.len() == 0 && self.date@.len()
                == 0 && self.description@.len() == 0 && self.category@.len() == 0);
            assert(self.wf());
        }
    }

    /// Replaces the store's contents with externally supplied records,
    /// after validating them: every date canonical, every price
    /// nonnegative, ids unique with room left to assign fresh ones. On
    /// success the selection moves to the first record; invalid input
    /// changes nothing and returns false.
    #[verifier::loop_isolation(false)]
    pub fn load_items(&mut self, items: Vec<DbItem>) -> (r: bool)
        requires
            old(self).wf(),
            old(self).state == AppState::Browse,
        ensures
            final(self).wf(),
            final(self).state == AppState::Browse,
            r == (all_wf(items@) && unique_ids(items@) && forall|i: int|
                0 <= i < items@.len() ==> (#[trigger] items@[i]).id < i64::MAX),
            r ==> final(self).recs() == items@ && final(self).table_sel == (if items@.len() == 0 {
                None::<usize>
            } else {
                Some(0usize)
            }),
            !r ==> *final(self) == *old(self),
    {
        let n = items.len();
        let mut i: usize = 0;
        while i < n
            invariant
                0 <= i <= n,
                n == items@.len(),
                forall|k: int| 0 <= k < i ==> (#[trigger] items@[k]).wf() && items@[k].id
                    < i64::MAX,
            decreases n - i,
        {
            let ok_date = parse_date_strict(items[i].date.as_str()).is_some();
            if !ok_date || items[i].price < 0 || items[i].id == i64::MAX {
                assert(!(items@[i as int].wf() && items@[i as int].id < i64::MAX));
                return false;
            }
            i = i + 1;
        }
        assert(all_wf(items@));
        let mut a: usize = 0;
        while a < n
            invariant
                0 <= a <= n,
                n == items@.len(),
                forall|p: int, q: int|
                    0 <= p < q < items@.len() && p < a ==> (#[trigger] items@[p]).id
                        != (#[trigger] items@[q]).id,
            decreases n - a,
        {
            let mut b: usize = a + 1;
            while b < n
                invariant
                    a < b <= n,
                    a < n,
                    n == items@.len(),
                    forall|q: int| a < q < b ==> (#[trigger] items@[q]).id != items@[a as int].id,
                decreases n - b,
            {
                if items[b].id == items[a].id {
                    assert(!unique_ids(items@));
                    return false;
                }
                b = b + 1;
            }
            a = a + 1;
        }
        assert(unique_ids(items@));
        let mut nid: i64 = 1;
        let mut k: usize = 0;
        while k < n
            invariant
                0 <= k <= n,
                n == items@.len(),
                nid >= 1,
                forall|j: int| 0 <= j < items@.len() ==> (#[trigger] items@[j]).id < i64::MAX,
                forall|j: int| 0 <= j < k ==> (#[trigger] items@[j]).id < nid,
            decreases n - k,
        {
            if items[k].id >= nid {
                nid = items[k].id + 1;
            }
            k = k + 1;
        }
        self.store.records = items;
        self.store.next_id = nid;
        self.distinct_categories = self.store.select_categories();
        self.distinct_descriptions = self.store.select_descriptions();
        self.table_sel = navigate_home(&self.store.records);
        proof {
            assert(self.wf());
        }
        return true;
    }

    /// Confirms the current field (the Enter action). An invalid date or
    /// price blocks only this step and changes nothing; an empty date or
    /// description aborts to browsing; a confirmed price persists the
    /// entry: an edit updates its record in place and returns to browsing,
    /// while a new entry is appended and the wizard returns to the
    /// description step for rapid consecutive entry. The only possible
    /// error is an exhausted id space on insert.
    pub fn confirm(&mut self) -> (r: Result<(), StoreError>)
        requires
            old(self).wf(),
        ensures
            final(self).wf(),
            match old(self).state {
                AppState::Browse => r.is_ok() && *final(self) == *old(self),
                AppState::InsertDate => r.is_ok() && ({
                    let t = trim_spec(old(self).buffer@);
                    if t.len() == 0 {
                        &&& final(self).state == AppState::Browse
                        &&& final(self).item_template.is_none()
                        &&& final(self).store == old(self).store
                        &&& final(self).table_sel == old(self).table_sel
                    } else if valid_date_str(t) {
                        &&& final(self).state == AppState::InsertDescription
                        &&& final(self).date@ == t
                        &&& final(self).item_template == old(self).item_template
                        &&& final(self).store == old(self).store
                        &&& final(self).table_sel == old(self).table_sel
                        &&& match old(self).item_template {
                            Some(tpl) => final(self).buffer@ == tpl.description@,
                            None => final(self).buffer@.len() == 0,
                        }
                    } else {
                        *final(self) == *old(self)
                    }
                }),
                AppState::InsertDescription => r.is_ok() && ({
                    let t = trim_spec(old(self).buffer@);
                    if t.len() == 0 {
                        &&& final(self).state == AppState::Browse
                        &&& final(self).item_template.is_none()
                        &&& final(self).store == old(self).store
                        &&& final(self).table_sel == old(self).table_sel
                    } else {
                        &&& final(self).state == AppState::InsertCategory
                        &&& final(self).description@ == t
                        &&& final(self).date == old(self).date
                        &&& final(self).item_template == old(self).item_template
                        &&& final(self).store == old(self).store
                        &&& final(self).table_sel == old(self).table_sel
                        &&& match old(self).item_template {
                            Some(tpl) => final(self).buffer@ == tpl.category@,
                            None => {
                                if exists|i: int|
                                    0 <= i < old(self).recs().len() && (#[trigger] old(self).recs()[i]).description@ == t {
                                    exists|i: int|
                                        {
                                            &&& 0 <= i < old(self).recs().len()
                                            &&& (#[trigger] old(self).recs()[i]).description@ == t
                                            &&& final(self).buffer@ == old(self).recs()[i].category@
                                            &&& forall|k: int|
                                                0 <= k < i ==> (#[trigger] old(self).recs()[k]).description@ != t
                                        }
                                } else {
                                    final(self).buffer@.len() == 0
                                }
                            },
                        }
                    }
                }),
                AppState::InsertCategory => r.is_ok() && {
                    &&& final(self).state == AppState::InsertPrice
                    &&& final(self).category@ == trim_spec(old(self).buffer@)
                    &&& final(self).date == old(self).date
                    &&& final(self).description == old(self).description
                    &&& final(self).item_template == old(self).item_template
                    &&& final(self).store == old(self).store
                    &&& final(self).table_sel == old(self).table_sel
                    &&& final(self).history@.len() == 0
                    &&& match old(self).item_template {
                        Some(tpl) => final(self).buffer@ == format_price_spec(tpl.price as int),
                        None => final(self).buffer@.len() == 0,
                    }
                },
                AppState::InsertPrice => match parse_price_spec(old(self).buffer@) {
                    None => r.is_ok() && *final(self) == *old(self),
                    Some(p) => match old(self).item_template {
                        Some(tpl) => {
                            &&& r.is_ok()
                            &&& final(self).state == AppState::Browse
                            &&& final(self).item_template.is_none()
                            &&& final(self).recs() == old(self).recs().update(
                                idx_of_id(old(self).recs(), tpl.id),
                                (DbItem {
                                    id: tpl.id,
                                    date: old(self).date,
                                    category: old(self).category,
                                    description: old(self).description,
                                    price: p,
                                }),
                            )
                            &&& final(self).recs().len() == old(self).recs().len()
                            &&& final(self).store.next_id == old(self).store.next_id
                            &&& (final(self).table_sel matches Some(k) && k < final(self).recs().len() && final(self).recs()[k as int].id == tpl.id)
                        },
                        None => match r {
                            Ok(u) => {
                                &&& final(self).state == AppState::InsertDescription
                                &&& final(self).item_template.is_none()
                                &&& final(self).recs() == old(self).recs().push(
                                    (DbItem {
                                        id: old(self).store.next_id,
                                        date: old(self).date,
                                        category: old(self).category,
                                        description: old(self).description,
                                        price: p,
                                    }),
                                )
                                &&& final(self).recs().len() == old(self).recs().len() + 1
                                &&& final(self).date == old(self).date
                                &&& final(self).table_sel == Some(
                                    (final(self).recs().len() - 1) as usize,
                                )
                                &&& final(self).buffer@.len() == 0
                            },
                            Err(e) => {
                                &&& e == StoreError::Full
                                &&& old(self).store.next_id == i64::MAX
                                &&& *final(self) == *old(self)
                            },
                        },
                    },
                },
            },
    {
        match self.state {
            AppState::Browse => Ok(()),
            AppState::InsertDate => {
                let tr: String;
                let empty: bool;
                {
                    let t = trim_str(self.buffer.as_str());
                    empty = t.is_empty();
                    tr = t.to_owned();
                }
                if empty {
                    self.transition(AppState::Browse);
                    return Ok(());
                }
                if parse_date_strict(tr.as_str()).is_some() {
                    self.date = tr;
                    self.transition(AppState::InsertDescription);
                    let pre: Option<String> = match &self.item_template {
                        Some(t2) => Some(t2.description.clone()),
                        None => None,
                    };
                    if let Some(d) = pre {
                        self.buffer = d;
                        self.update_history();
                    }
                    proof {
                        assert(self.history_ok());
                        assert(self.wf());
                    }
                }
                Ok(())
            },
            AppState::InsertDescription => {
                let tr: String;
                let empty: bool;
                {
                    let t = trim_str(self.buffer.as_str());
                    empty = t.is_empty();
                    tr = t.to_owned();
                }
                if empty {
                    self.transition(AppState::Browse);
                    return Ok(());
                }
                self.description = tr;
                self.transition(AppState::InsertCategory);
                let pre: Option<String> = match &self.item_template {
                    Some(t2) => Some(t2.category.clone()),
                    None => None,
                };
                match pre {
                    Some(c) => {
                        self.buffer = c;
                        self.update_history();
                    },
                    None => {
                        let autofill = self.store.select_category(self.description.as_str());
                        if let Some(c) = autofill {
                            self.buffer = c;
                            self.update_history();
                        }
                    },
                }
                proof {
                    assert(self.history_ok());
                    assert(self.wf());
                }
                Ok(())
            },
            AppState::InsertCategory => {
                let tr: String;
                {
                    let t = trim_str(self.buffer.as_str());
                    tr = t.to_owned();
                }
                self.category = tr;
                self.transition(AppState::InsertPrice);
                proof {
                    assert(match self.item_template {
                        Some(t2) => t2.wf(),
                        None => true,
                    });
                }
                let pre: Option<String> = match &self.item_template {
                    Some(t2) => Some(format_price(t2.price)),
                    None => None,
                };
                if let Some(pstr) = pre {
                    self.buffer = pstr;
                }
                proof {
                    assert(self.history_ok());
                    assert(self.wf());
                }
                Ok(())
            },
            AppState::InsertPrice => {
                let p = match parse_price(self.buffer.as_str()) {
                    Some(p) => p,
                    None => {
                        return Ok(());
                    },
                };
                let rec = DbItem {
                    id: 0,
                    date: self.date.clone(),
                    category: self.category.clone(),
                    description: self.description.clone(),
                    price: p,
                };
                assert(rec.wf());
                let tpl_id: Option<i64> = match &self.item_template {
                    Some(t2) => Some(t2.id),
                    None => None,
                };
                match tpl_id {
                    Some(id) => {
                        let ghost s = self.recs();
                        let res = self.store.update_item(id, &rec);
                        proof {
                            assert(contains_id(s, id));
                            assert(res.is_ok());
                            let ix = idx_of_id(s, id);
                            assert(0 <= ix < s.len() && s[ix].id == id);
                            assert(self.recs()[ix] == with_id(rec, id));
                            assert(self.recs()[ix].id == id);
                            assert(contains_id(self.recs(), id));
                        }
                        self.distinct_categories = self.store.select_categories();
                        self.distinct_descriptions = self.store.select_descriptions();
                        let pos = self.store.find_index_by_id(id);
                        proof {
                            assert(pos.is_some());
                        }
                        self.table_sel = pos;
                        proof {
                            assert(self.store.wf());
                            assert(sel_in_range(self.recs().len(), self.table_sel));
                            assert(sel_in_range(self.history@.len(), self.list_sel));
                            assert(self.distinct_ok());
                            assert(self.history_ok());
                            assert(match self.item_template {
                                Some(t) => t.id == id,
                                None => false,
                            });
                            assert(contains_id(self.recs(), id));
                            assert(self.wf());
                        }
                        self.transition(AppState::Browse);
                        proof {
                            assert(self.wf());
                        }
                        Ok(())
                    },
                    None => {
                        let res = self.store.insert_item(&rec);
                        let id = match res {
                            Ok(id) => id,
                            Err(e) => {
                                return Err(e);
                            },
                        };
                        proof {
                            assert(self.recs()[self.recs().len() - 1] == with_id(rec, id));
                            assert(contains_id(self.recs(), id));
                        }
                        self.distinct_categories = self.store.select_categories();
                        self.distinct_descriptions = self.store.select_descriptions();
                        let pos = self.store.find_index_by_id(id);
                        proof {
                            assert(pos.is_some());
                            let j = pos.unwrap();
                            if (j as int) < self.recs().len() - 1 {
                                assert(self.recs()[j as int].id != self.recs()[self.recs().len()
                                    - 1].id);
                            }
                            assert(j as int == self.recs().len() - 1);
                        }
                        self.table_sel = pos;
                        self.transition(AppState::InsertDescription);
                        proof {
                            assert(self.wf());
                        }
                        Ok(())
                    },
                }
            },
        }
    }
}

/// In the autocomplete states, every candidate in the history list starts
/// with the current trimmed buffer text, is one of the distinct prior
/// values of the matching kind, and conversely every distinct value with
/// that prefix is listed.
pub proof fn lemma_history_candidates(a: App)
    requires
        a.wf(),
        a.state == AppState::InsertDescription || a.state == AppState::InsertCategory,
    ensures
        forall|i: int|
            0 <= i < a.history@.len() ==> trim_spec(a.buffer@).is_prefix_of(
                (#[trigger] a.history@[i])@,
            ),
        forall|i: int|
            0 <= i < a.history@.len() ==> (if a.state == AppState::InsertDescription {
                a.distinct_descriptions
            } else {
                a.distinct_categories
            }).deep_view().contains((#[trigger] a.history@[i])@),
        forall|y: Seq<char>|
            (if a.state == AppState::InsertDescription {
                a.distinct_descriptions
            } else {
                a.distinct_categories
            }).deep_view().contains(y) && trim_spec(a.buffer@).is_prefix_of(y)
                ==> a.history.deep_view().contains(y),
{
    let dl = if a.state == AppState::InsertDescription {
        a.distinct_descriptions.deep_view()
    } else {
        a.distinct_categories.deep_view()
    };
    let p = trim_spec(a.buffer@);
    lemma_filtered_props(dl, p);
    assert(a.history.deep_view() == filtered(dl, p));
    assert(forall|i: int|
        0 <= i < a.history@.len() ==> a.history.deep_view()[i] == (#[trigger] a.history@[i])@);
}

} // verus!
