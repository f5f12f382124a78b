//! The navigation and session controller: snapshot index, cursor, scroll,
//! and the interpretation of already-classified input commands.
//!
//! Boundary conditions are handled by clamping, never by failing:
//! navigating past either end of the trace is a no-op, and cursor and
//! scroll are kept inside the materialized line list.

use vstd::prelude::*;

use crate::diff::{
    DiffKind, DiffResult, compute_diff, has_entry, lemma_changed_in_current, snap_entries,
};
use crate::expand::{ExpansionState, ancestor_set, prefix_set};
use crate::tree::{TreeLine, has_line, lemma_snapshot_reaches, lines_model, render_snapshot};
use crate::value::{PathSeg, SegModel, Trace, TreePath, path_model};

verus! {

/// Application session state.
pub struct App {
    pub trace: Trace,
    pub current_state: usize,
    pub should_quit: bool,
    pub expansion: ExpansionState,
    pub cursor: usize,
    pub scroll_offset: usize,
    pub auto_expand: bool,
}

/// One already-classified input command, as the input decoder hands it in.
#[derive(Clone, Copy, Debug, PartialEq, Eq, Structural)]
pub enum Command {
    NextState,
    PrevState,
    CursorUp,
    CursorDown,
    PageUp,
    PageDown,
    Home,
    End,
    ToggleAtCursor,
    ExpandAll,
    CollapseAll,
    Quit,
    SelectLine(usize),
    Scroll(isize),
}

/// The diff entries shown at snapshot `idx`: empty for the first snapshot,
/// else the comparison of the two neighbouring snapshots.
pub open spec fn state_entries(trace: Trace, idx: int) -> Seq<(Seq<SegModel>, DiffKind)> {
    if idx <= 0 {
        Seq::empty()
    } else {
        snap_entries(trace.states@[idx - 1].values, trace.states@[idx].values)
    }
}

/// The strict non-empty ancestor prefixes of all recorded diff paths.
pub open spec fn entry_ancestors(entries: Seq<(Seq<SegModel>, DiffKind)>) -> Set<Seq<SegModel>> {
    Set::new(
        |q: Seq<SegModel>|
            exists|i: int|
                0 <= i < entries.len() && prefix_set(
                    #[trigger] entries[i].0,
                    entries[i].0.len() as int,
                ).contains(q),
    )
}

/// Whether `q` is the path model of an expandable line among the first `n`.
pub open spec fn is_expandable_path_of(q: Seq<SegModel>, lines: Seq<TreeLine>, n: int) -> bool {
    exists|l: int|
        0 <= l < n && l < lines.len() && (#[trigger] lines[l]).expandable && path_model(
            lines[l].path@,
        ) == q
}

/// The models of the paths of the expandable lines.
pub open spec fn expandable_path_set(lines: Seq<TreeLine>) -> Set<Seq<SegModel>> {
    Set::new(
        |q: Seq<SegModel>|
            exists|i: int|
                0 <= i < lines.len() && (#[trigger] lines[i]).expandable && path_model(
                    lines[i].path@,
                ) == q,
    )
}

impl App {
    /// The session's standing invariant: a well-formed trace, an index
    /// inside it, a well-formed expansion store.
    pub open spec fn wf(self) -> bool {
        self.trace.wf() && self.current_state < self.trace.states@.len() && self.expansion.wf()
    }

    /// A fresh session on the first snapshot, nothing expanded.
    pub fn new(trace: Trace, auto_expand: bool) -> (app: App)
        requires
            trace.wf(),
        ensures
            app.wf(),
            app.trace == trace,
            app.current_state == 0,
            !app.should_quit,
            app.expansion.model() == Set::<Seq<SegModel>>::empty(),
            app.cursor == 0,
            app.scroll_offset == 0,
            app.auto_expand == auto_expand,
    {
        App {
            trace,
            current_state: 0,
            should_quit: false,
            expansion: ExpansionState::new(),
            cursor: 0,
            scroll_offset: 0,
            auto_expand,
        }
    }

    /// The scroll offset that keeps the cursor visible with two lines of
    /// padding at either edge.
    pub open spec fn visible_scroll(cursor: int, scroll: int, viewport_height: int) -> int {
        if cursor < scroll + 2 {
            if cursor >= 2 {
                cursor - 2
            } else {
                0
            }
        } else if cursor >= scroll + viewport_height - 2 {
            if cursor >= viewport_height - 3 {
                cursor - (viewport_height - 3)
            } else {
                0
            }
        } else {
            scroll
        }
    }

    /// Adjusts the scroll offset so the cursor stays inside the viewport.
    pub fn ensure_cursor_visible(&mut self, viewport_height: usize)
        requires
            viewport_height >= 3,
            old(self).scroll_offset + viewport_height <= usize::MAX,
        ensures
            final(self).scroll_offset == Self::visible_scroll(
                old(self).cursor as int,
                old(self).scroll_offset as int,
                viewport_height as int,
            ),
            *final(self) == (App { scroll_offset: final(self).scroll_offset, ..*old(self) }),
    {
        let padding: usize = 2;
        if self.cursor < self.scroll_offset + padding {
            self.scroll_offset = if self.cursor >= padding {
                self.cursor - padding
            } else {
                0
            };
        } else if self.cursor >= self.scroll_offset + viewport_height - padding {
            let back = viewport_height - padding - 1;
            self.scroll_offset = if self.cursor >= back {
                self.cursor - back
            } else {
                0
            };
        }
    }

    /// Clamps the cursor into the line list after a rebuild.
    pub fn clamp_cursor(&mut self, line_count: usize)
        ensures
            final(self).cursor == if old(self).cursor >= line_count && line_count > 0 {
                (line_count - 1) as int
            } else {
                old(self).cursor as int
            },
            *final(self) == (App { cursor: final(self).cursor, ..*old(self) }),
    {
        if self.cursor >= line_count && line_count > 0 {
            self.cursor = line_count - 1;
        }
    }
}

/// Computes the diff between the current snapshot and its predecessor; the
/// very first snapshot has nothing to compare against and yields an empty
/// result.
pub fn compute_diff_for_state(app: &App) -> (d: DiffResult)
    requires
        app.wf(),
    ensures
        d.model() == state_entries(app.trace, app.current_state as int),
{
    if app.current_state == 0 {
        return DiffResult::empty();
    }
    let prev = &app.trace.states[app.current_state - 1].values;
    let curr = &app.trace.states[app.current_state].values;
    compute_diff(prev, curr)
}

/// Replaces the expansion set with exactly the strict ancestors of every
/// changed path of the current snapshot's diff, so each changed node's
/// line is reachable.
pub fn auto_expand_changes(app: &mut App)
    requires
        old(app).wf(),
    ensures
        final(app).wf(),
        final(app).expansion.model() == entry_ancestors(
            state_entries(old(app).trace, old(app).current_state as int),
        ),
        *final(app) == (App { expansion: final(app).expansion, ..*old(app) }),
{
    app.expansion.clear();
    let diff = compute_diff_for_state(app);
    let changed = diff.changed_paths();
    app.expansion.expand_to_changes(&changed);
    proof {
        let entries = state_entries(old(app).trace, old(app).current_state as int);
        assert forall|q: Seq<SegModel>|
            app.expansion.model().contains(q) == entry_ancestors(entries).contains(q) by {
            if ancestor_set(changed@, changed@.len() as int).contains(q) {
                let i = choose|i: int|
                    0 <= i < changed@.len() && prefix_set(
                        path_model(#[trigger] changed@[i]@),
                        path_model(changed@[i]@).len() as int,
                    ).contains(q);
                assert(path_model(changed@[i]@) == entries[i].0);
                assert(entry_ancestors(entries).contains(q));
            }
            if entry_ancestors(entries).contains(q) {
                let i = choose|i: int|
                    0 <= i < entries.len() && prefix_set(
                        #[trigger] entries[i].0,
                        entries[i].0.len() as int,
                    ).contains(q);
                assert(path_model(changed@[i]@) == entries[i].0);
                assert(ancestor_set(changed@, changed@.len() as int).contains(q));
            }
        }
        assert(app.expansion.model() =~= entry_ancestors(entries));
    }
}

/// Materializes the line list of the current snapshot: every top-level
/// entry in order, each with its visible subtree.
pub fn build_tree_lines(app: &App, diff: &DiffResult, terminal_width: usize) -> (lines: Vec<
    TreeLine,
>)
    requires
        app.wf(),
    ensures
        lines_model(lines@) == render_snapshot(
            app.trace.states@[app.current_state as int].values,
            0,
            app.expansion.model(),
            diff.model(),
            terminal_width as int,
        ),
{
    let mut lines: Vec<TreeLine> = Vec::new();
    let state = &app.trace.states[app.current_state];
    let ghost vals = app.trace.states@[app.current_state as int].values;
    let n = state.values.len();
    proof {
        assert(lines_model(lines@) =~= Seq::<crate::tree::LineModel>::empty());
    }
    for i in 0..n
        invariant
            app.wf(),
            state == app.trace.states@[app.current_state as int],
            vals == app.trace.states@[app.current_state as int].values,
            n == state.values@.len(),
            render_snapshot(
                vals,
                0,
                app.expansion.model(),
                diff.model(),
                terminal_width as int,
            ) == lines_model(lines@) + render_snapshot(
                vals,
                i as int,
                app.expansion.model(),
                diff.model(),
                terminal_width as int,
            ),
    {
        let name = &state.values[i].0;
        let mut path: TreePath = Vec::new();
        path.push(PathSeg::Key(name.clone()));
        proof {
            assert(path_model(path@) =~= seq![SegModel::Key(name@)]);
        }
        let mut sub = crate::tree::render_value(
            name,
            &state.values[i].1,
            path,
            &app.expansion,
            diff,
            0,
            terminal_width,
        );
        let ghost before = lines@;
        let ghost subm = lines_model(sub@);
        lines.append(&mut sub);
        proof {
            assert(lines_model(lines@) =~= lines_model(before) + subm);
            assert(lines_model(lines@) + render_snapshot(
                vals,
                i as int + 1,
                app.expansion.model(),
                diff.model(),
                terminal_width as int,
            ) =~= lines_model(before) + render_snapshot(
                vals,
                i as int,
                app.expansion.model(),
                diff.model(),
                terminal_width as int,
            ));
        }
    }
    lines
}

/// Applies one input command to the session, against the currently
/// materialized line list and viewport height.
///
/// Toggling at a non-expandable line leaves the session unchanged; a page
/// moves the cursor by two less than the viewport height; navigation past
/// either end of the trace is a no-op.
pub fn apply_command(
    app: &mut App,
    cmd: Command,
    tree_lines: &Vec<TreeLine>,
    viewport_height: usize,
)
    requires
        old(app).wf(),
        old(app).cursor <= tree_lines@.len(),
        old(app).scroll_offset <= tree_lines@.len(),
        tree_lines@.len() + viewport_height <= usize::MAX,
        cmd matches Command::Scroll(d) ==> d != isize::MIN,
    ensures
        final(app).wf(),
        final(app).trace == old(app).trace,
        final(app).auto_expand == old(app).auto_expand,
        cmd == Command::Quit ==> *final(app) == (App { should_quit: true, ..*old(app) }),
        cmd == Command::Home ==> *final(app) == (App { cursor: 0, ..*old(app) }),
        cmd == Command::End ==> *final(app) == (App {
            cursor: if tree_lines@.len() > 0 {
                (tree_lines@.len() - 1) as usize
            } else {
                old(app).cursor
            },
            ..*old(app)
        }),
        cmd == Command::CursorUp ==> *final(app) == (App {
            cursor: if old(app).cursor > 0 {
                (old(app).cursor - 1) as usize
            } else {
                0
            },
            ..*old(app)
        }),
        cmd == Command::CursorDown ==> *final(app) == (App {
            cursor: if old(app).cursor + 1 < tree_lines@.len() {
                (old(app).cursor + 1) as usize
            } else {
                old(app).cursor
            },
            ..*old(app)
        }),
        cmd == Command::PageUp ==> final(app).cursor == page_back(
            old(app).cursor as int,
            viewport_height as int,
        ) && *final(app) == (App { cursor: final(app).cursor, ..*old(app) }),
        cmd == Command::PageDown ==> final(app).cursor == page_forward(
            old(app).cursor as int,
            viewport_height as int,
            tree_lines@.len() as int,
        ) && *final(app) == (App { cursor: final(app).cursor, ..*old(app) }),
        cmd == Command::PrevState ==> nav_spec(
            *old(app),
            *final(app),
            old(app).current_state as int - 1,
        ),
        cmd == Command::NextState ==> nav_spec(
            *old(app),
            *final(app),
            old(app).current_state as int + 1,
        ),
        cmd == Command::CollapseAll ==> final(app).expansion.model() == Set::<
            Seq<SegModel>,
        >::empty() && *final(app) == (App { expansion: final(app).expansion, ..*old(app) }),
        cmd == Command::ExpandAll ==> final(app).expansion.model() == old(
            app,
        ).expansion.model().union(expandable_path_set(tree_lines@)) && *final(app) == (App {
            expansion: final(app).expansion,
            ..*old(app)
        }),
        cmd == Command::ToggleAtCursor ==> final(app).expansion.model() == toggle_at_spec(
            old(app).expansion.model(),
            tree_lines@,
            old(app).cursor as int,
        ) && *final(app) == (App { expansion: final(app).expansion, ..*old(app) }),
        cmd matches Command::SelectLine(row) ==> select_spec(
            *old(app),
            *final(app),
            row as int,
            tree_lines@,
        ),
        cmd matches Command::Scroll(delta) ==> scroll_spec(
            *old(app),
            *final(app),
            delta as int,
            tree_lines@.len() as int,
            viewport_height as int,
        ),
{
    match cmd {
        Command::Quit => {
            app.should_quit = true;
        },
        Command::Home => {
            app.cursor = 0;
        },
        Command::End => {
            if tree_lines.len() > 0 {
                app.cursor = tree_lines.len() - 1;
            }
        },
        Command::CursorUp => {
            if app.cursor > 0 {
                app.cursor = app.cursor - 1;
            }
        },
        Command::CursorDown => {
            let len = tree_lines.len();
            if len > 0 && app.cursor < len - 1 {
                app.cursor = app.cursor + 1;
            }
        },
        Command::PageUp => {
            let step: usize = if viewport_height >= 2 {
                viewport_height - 2
            } else {
                0
            };
            app.cursor = if app.cursor >= step {
                app.cursor - step
            } else {
                0
            };
        },
        Command::PageDown => {
            let step: usize = if viewport_height >= 2 {
                viewport_height - 2
            } else {
                0
            };
            let len = tree_lines.len();
            let maxc: usize = if len >= 1 {
                len - 1
            } else {
                0
            };
            app.cursor = if app.cursor >= maxc {
                maxc
            } else if maxc - app.cursor <= step {
                maxc
            } else {
                app.cursor + step
            };
        },
        Command::PrevState => {
            if app.current_state > 0 {
                app.current_state = app.current_state - 1;
                app.cursor = 0;
                app.scroll_offset = 0;
                if app.auto_expand {
                    auto_expand_changes(app);
                }
            }
        },
        Command::NextState => {
            let nstates = app.trace.states.len();
            if app.current_state < nstates - 1 {
                app.current_state = app.current_state + 1;
                app.cursor = 0;
                app.scroll_offset = 0;
                if app.auto_expand {
                    auto_expand_changes(app);
                }
            }
        },
        Command::CollapseAll => {
            app.expansion.clear();
        },
        Command::ExpandAll => {
            let mut expandable: Vec<TreePath> = Vec::new();
            let n = tree_lines.len();
            for i in 0..n
                invariant
                    n == tree_lines@.len(),
                    forall|j: int|
                        0 <= j < expandable@.len() ==> is_expandable_path_of(
                            path_model(#[trigger] expandable@[j]@),
                            tree_lines@,
                            i as int,
                        ),
                    forall|l: int|
                        0 <= l < i && (#[trigger] tree_lines@[l]).expandable
                            ==> crate::expand::path_set(
                            expandable@,
                            expandable@.len() as int,
                        ).contains(path_model(tree_lines@[l].path@)),
            {
                let ghost prev_list = expandable@;
                if tree_lines[i].expandable {
                    expandable.push(crate::value::path_clone(&tree_lines[i].path));
                    proof {
                        assert(path_model(expandable@[expandable@.len() - 1]@) == path_model(
                            tree_lines@[i as int].path@,
                        ));
                        assert forall|l: int|
                            0 <= l < i + 1 && (#[trigger] tree_lines@[l]).expandable
                                implies crate::expand::path_set(
                                expandable@,
                                expandable@.len() as int,
                            ).contains(path_model(tree_lines@[l].path@)) by {
                            if l < i {
                                let j = choose|j: int|
                                    0 <= j < prev_list.len() && path_model(
                                        #[trigger] prev_list[j]@,
                                    ) == path_model(tree_lines@[l].path@);
                                assert(expandable@[j] == prev_list[j]);
                                assert(path_model(expandable@[j]@) == path_model(
                                    tree_lines@[l].path@,
                                ));
                            } else {
                                assert(path_model(
                                    expandable@[expandable@.len() - 1]@,
                                ) == path_model(tree_lines@[l].path@));
                            }
                        }
                        assert forall|j: int|
                            0 <= j < expandable@.len() implies is_expandable_path_of(
                            path_model(#[trigger] expandable@[j]@),
                            tree_lines@,
                            i as int + 1,
                        ) by {
                            if j < prev_list.len() {
                                assert(expandable@[j] == prev_list[j]);
                            } else {
                                assert((#[trigger] tree_lines@[i as int]).expandable);
                            }
                        }
                    }
                }
            }
            app.expansion.expand_all(&expandable);
            proof {
                assert forall|q: Seq<SegModel>|
                    crate::expand::path_set(expandable@, expandable@.len() as int).contains(q)
                        == expandable_path_set(tree_lines@).contains(q) by {
                    if crate::expand::path_set(expandable@, expandable@.len() as int).contains(
                        q,
                    ) {
                        let j = choose|j: int|
                            0 <= j < expandable@.len() && path_model(
                                #[trigger] expandable@[j]@,
                            ) == q;
                        assert(is_expandable_path_of(q, tree_lines@, tree_lines@.len() as int));
                        let l = choose|l: int|
                            0 <= l < tree_lines@.len() && (#[trigger] tree_lines@[l]).expandable
                                && path_model(tree_lines@[l].path@) == q;
                        assert(expandable_path_set(tree_lines@).contains(q));
                    }
                    if expandable_path_set(tree_lines@).contains(q) {
                        let l = choose|l: int|
                            0 <= l < tree_lines@.len() && (#[trigger] tree_lines@[l]).expandable
                                && path_model(tree_lines@[l].path@) == q;
                        assert(crate::expand::path_set(
                            expandable@,
                            expandable@.len() as int,
                        ).contains(path_model(tree_lines@[l].path@)));
                    }
                }
                assert(app.expansion.model() =~= old(app).expansion.model().union(
                    expandable_path_set(tree_lines@),
                ));
            }
        },
        Command::ToggleAtCursor => {
            if app.cursor < tree_lines.len() {
                let line = &tree_lines[app.cursor];
                if line.expandable {
                    app.expansion.toggle(&line.path);
                }
            }
        },
        Command::SelectLine(row) => {
            if row >= 2 {
                let off = row - 2;
                let len = tree_lines.len();
                if off < len && app.scroll_offset < len - off {
                    let clicked = app.scroll_offset + off;
                    app.cursor = clicked;
                    let line = &tree_lines[clicked];
                    if line.expandable {
                        app.expansion.toggle(&line.path);
                    }
                }
            }
        },
        Command::Scroll(delta) => {
            if delta < 0 {
                let amt = (-delta) as usize;
                self_scroll_up(app, amt, viewport_height);
            } else if delta > 0 {
                let amt = delta as usize;
                self_scroll_down(app, amt, tree_lines.len(), viewport_height);
            }
        },
    }
}

/// What selecting a screen row does: rows on the header do nothing; a row
/// over a line moves the cursor there and toggles it when expandable.
pub open spec fn select_spec(before: App, after: App, row: int, lines: Seq<TreeLine>) -> bool {
    if row >= 2 && before.scroll_offset + row - 2 < lines.len() {
        let clicked = before.scroll_offset + row - 2;
        after.cursor == clicked && after.expansion.model() == toggle_at_spec(
            before.expansion.model(),
            lines,
            clicked,
        ) && after == (App { cursor: after.cursor, expansion: after.expansion, ..before })
    } else {
        after == before
    }
}

/// What a scroll by `delta` does: the offset moves and stops at either end,
/// and the cursor is pulled along so it stays inside the viewport.
pub open spec fn scroll_spec(before: App, after: App, delta: int, line_count: int, viewport_height: int) -> bool {
    if delta == 0 {
        after == before
    } else if delta < 0 {
        let ns = if before.scroll_offset >= -delta {
            before.scroll_offset + delta
        } else {
            0
        };
        after.scroll_offset == ns && after.cursor == scroll_up_cursor(
            before.cursor as int,
            ns,
            viewport_height,
        ) && after == (App {
            cursor: after.cursor,
            scroll_offset: after.scroll_offset,
            ..before
        })
    } else {
        let ns = scroll_down_offset(before.scroll_offset as int, delta, line_count, viewport_height);
        after.scroll_offset == ns && after.cursor == (if before.cursor < ns {
            ns
        } else {
            before.cursor as int
        }) && after == (App {
            cursor: after.cursor,
            scroll_offset: after.scroll_offset,
            ..before
        })
    }
}

/// The cursor after a page up: back by two less than the viewport height,
/// stopping at the top.
pub open spec fn page_back(cursor: int, viewport_height: int) -> int {
    let step = if viewport_height >= 2 {
        viewport_height - 2
    } else {
        0
    };
    if cursor >= step {
        cursor - step
    } else {
        0
    }
}

/// The cursor after a page down: forward by two less than the viewport
/// height, stopping at the last line.
pub open spec fn page_forward(cursor: int, viewport_height: int, line_count: int) -> int {
    let step = if viewport_height >= 2 {
        viewport_height - 2
    } else {
        0
    };
    let maxc = if line_count >= 1 {
        line_count - 1
    } else {
        0
    };
    if cursor + step >= maxc {
        maxc
    } else {
        cursor + step
    }
}

/// What navigating to snapshot `target` does: clamped to the trace, and on
/// a real move the cursor and scroll reset and, with auto-expand on, the
/// expansion set becomes exactly the ancestors of the new diff's paths.
pub open spec fn nav_spec(before: App, after: App, target: int) -> bool {
    if 0 <= target < before.trace.states@.len() {
        after.current_state == target && after.cursor == 0 && after.scroll_offset == 0
            && after.should_quit == before.should_quit && after.trace == before.trace
            && after.auto_expand == before.auto_expand && after.expansion.model() == (
        if before.auto_expand {
            entry_ancestors(state_entries(before.trace, target))
        } else {
            before.expansion.model()
        })
    } else {
        after == before
    }
}

/// What toggling at the cursor does to the expansion set: nothing unless
/// the cursor sits on an expandable line, else that line's path flips.
pub open spec fn toggle_at_spec(
    es: Set<Seq<SegModel>>,
    lines: Seq<TreeLine>,
    cursor: int,
) -> Set<Seq<SegModel>> {
    if 0 <= cursor < lines.len() && lines[cursor].expandable {
        let pm = path_model(lines[cursor].path@);
        if es.contains(pm) {
            es.remove(pm)
        } else {
            es.insert(pm)
        }
    } else {
        es
    }
}

/// Scrolls the view up and keeps the cursor inside it.
fn self_scroll_up(app: &mut App, amt: usize, viewport_height: usize)
    requires
        old(app).wf(),
        old(app).scroll_offset + viewport_height <= usize::MAX,
    ensures
        final(app).wf(),
        final(app).scroll_offset == if old(app).scroll_offset >= amt {
            old(app).scroll_offset - amt
        } else {
            0
        },
        final(app).cursor == scroll_up_cursor(
            old(app).cursor as int,
            final(app).scroll_offset as int,
            viewport_height as int,
        ),
        *final(app) == (App {
            scroll_offset: final(app).scroll_offset,
            cursor: final(app).cursor,
            ..*old(app)
        }),
{
    app.scroll_offset = if app.scroll_offset >= amt {
        app.scroll_offset - amt
    } else {
        0
    };
    if app.cursor >= app.scroll_offset + viewport_height {
        let top = app.scroll_offset + viewport_height;
        app.cursor = if top >= 1 {
            top - 1
        } else {
            0
        };
    }
}

/// The cursor after an upward scroll: pulled to the last visible line when
/// it fell below the viewport.
pub open spec fn scroll_up_cursor(cursor: int, new_scroll: int, viewport_height: int) -> int {
    if cursor >= new_scroll + viewport_height {
        if new_scroll + viewport_height >= 1 {
            new_scroll + viewport_height - 1
        } else {
            0
        }
    } else {
        cursor
    }
}

/// Scrolls the view down, bounded by the line count, and keeps the cursor
/// inside it.
fn self_scroll_down(app: &mut App, amt: usize, line_count: usize, viewport_height: usize)
    requires
        old(app).wf(),
        old(app).scroll_offset <= line_count,
    ensures
        final(app).wf(),
        final(app).scroll_offset == scroll_down_offset(
            old(app).scroll_offset as int,
            amt as int,
            line_count as int,
            viewport_height as int,
        ),
        final(app).cursor == if old(app).cursor < final(app).scroll_offset {
            final(app).scroll_offset as int
        } else {
            old(app).cursor as int
        },
        *final(app) == (App {
            scroll_offset: final(app).scroll_offset,
            cursor: final(app).cursor,
            ..*old(app)
        }),
{
    let max_scroll: usize = if line_count >= viewport_height {
        line_count - viewport_height
    } else {
        0
    };
    app.scroll_offset = if app.scroll_offset >= max_scroll {
        max_scroll
    } else if max_scroll - app.scroll_offset <= amt {
        max_scroll
    } else {
        app.scroll_offset + amt
    };
    if app.cursor < app.scroll_offset {
        app.cursor = app.scroll_offset;
    }
}

/// The scroll offset after a downward scroll: forward by `amt`, stopping
/// where the last line enters the viewport.
pub open spec fn scroll_down_offset(
    scroll: int,
    amt: int,
    line_count: int,
    viewport_height: int,
) -> int {
    let max_scroll = if line_count >= viewport_height {
        line_count - viewport_height
    } else {
        0
    };
    if scroll + amt >= max_scroll {
        max_scroll
    } else {
        scroll + amt
    }
}

/// Reachability after auto-expand: a changed path that is present in the
/// current snapshot (recorded added or modified) has every strict ancestor
/// prefix in the auto-expanded set, and the materialized line list holds a
/// line with exactly that path.  A removed path names no node of the
/// current snapshot, so nothing is claimed of it.
pub proof fn lemma_auto_expand_reveals(trace: Trace, idx: int, width: int, p: Seq<SegModel>, k: DiffKind)
    requires
        trace.wf(),
        1 <= idx < trace.states@.len(),
        has_entry(state_entries(trace, idx), p, k),
        k == DiffKind::Added || k == DiffKind::Modified,
    ensures
        forall|l: int|
            1 <= l < p.len() ==> entry_ancestors(state_entries(trace, idx)).contains(
                #[trigger] p.take(l),
            ),
        has_line(
            render_snapshot(
                trace.states@[idx].values,
                0,
                entry_ancestors(state_entries(trace, idx)),
                state_entries(trace, idx),
                width,
            ),
            p,
        ),
{
    let entries = state_entries(trace, idx);
    let i = choose|i: int| 0 <= i < entries.len() && entries[i] == (p, k);
    assert forall|l: int|
        1 <= l < p.len() implies entry_ancestors(entries).contains(#[trigger] p.take(l)) by {
        assert(prefix_set(entries[i].0, entries[i].0.len() as int).contains(p.take(l)));
    }
    lemma_changed_in_current(
        trace.states@[idx - 1].values,
        trace.states@[idx].values,
        p,
        k,
    );
    lemma_snapshot_reaches(
        trace.states@[idx].values,
        entry_ancestors(entries),
        entries,
        width,
        p,
    );
}


} // verus!
