//! The state of the organizer window: where the current scan stands, the
//! drill-down path into the scanned tree, and the selected tile.
//!
//! Scans run on a worker thread that the window starts; the finished outcome
//! arrives over a channel, which [`OrganizerApp::poll_scan`] checks without
//! blocking. Drawing happens in the caller, which hands the user's navigation
//! back through [`OrganizerApp::apply_navigation`].
use crate::model::Node;
use crate::scanner::ScanOutcome;
use std::path::PathBuf;
use std::sync::mpsc::Receiver;
use vstd::prelude::*;

verus! {

/// The receiving end of a channel; carried through, never inspected.
#[verifier::external_type_specification]
#[verifier::external_body]
#[verifier::reject_recursive_types(T)]
pub struct ExReceiver<T>(Receiver<T>);

/// A value that has already arrived on `rx`, if any, without waiting.
///
/// Trusted: calls `Receiver::try_recv`. Whether something has arrived
/// depends on the sending thread's timing, so nothing is stated of the
/// result.
#[verifier::external_body]
fn try_receive<T>(rx: &Receiver<T>) -> Option<T> {
    rx.try_recv().ok()
}

/// What a finished scan delivers: the outcome, or the error's text.
pub type ScanResult = Result<ScanOutcome, String>;

/// Where the current scan stands.
pub enum ScanState {
    Idle,
    Scanning,
    Done(ScanOutcome),
    Error(String),
}

/// The window state of the organizer.
pub struct OrganizerApp {
    /// The folder that a scan covers.
    pub root: PathBuf,
    pub state: ScanState,
    /// The channel a running scan will answer on.
    pub rx: Option<Receiver<ScanResult>>,
    /// Drill path from the scan root: successive child indices.
    pub nav: Vec<usize>,
    /// Selected child index within the current node.
    pub selected: Option<usize>,
}

/// The state a finished scan leaves behind.
pub open spec fn state_after(result: ScanResult) -> ScanState {
    match result {
        Ok(outcome) => ScanState::Done(outcome),
        Err(e) => ScanState::Error(e),
    }
}

/// A scan starts when one is requested and none is running.
pub open spec fn starts_scan(app: OrganizerApp, requested: bool) -> bool {
    requested && !(app.state is Scanning)
}

/// The node reached from `node` by following `nav`, stopping at the first
/// index that has no child.
pub open spec fn descend(node: Node, nav: Seq<usize>) -> Node
    decreases nav.len(),
{
    if nav.len() == 0 {
        node
    } else if nav[0] < node.children@.len() {
        descend(node.children@[nav[0] as int], nav.drop_first())
    } else {
        node
    }
}

/// The names from `node` down to the node that `nav` reaches.
pub open spec fn crumbs(node: Node, nav: Seq<usize>) -> Seq<Seq<char>>
    decreases nav.len(),
{
    if nav.len() > 0 && nav[0] < node.children@.len() {
        seq![node.name@] + crumbs(node.children@[nav[0] as int], nav.drop_first())
    } else {
        seq![node.name@]
    }
}

/// The number of steps of `nav` that can be followed from `node`.
pub open spec fn depth_reached(node: Node, nav: Seq<usize>) -> nat
    decreases nav.len(),
{
    if nav.len() > 0 && nav[0] < node.children@.len() {
        1 + depth_reached(node.children@[nav[0] as int], nav.drop_first())
    } else {
        0
    }
}

/// Follow `nav` from the scan root to the currently viewed node.
pub fn current_node<'a>(outcome: &'a ScanOutcome, nav: &[usize]) -> (node: &'a Node)
    ensures
        *node == descend(outcome.root, nav@),
{
    let mut node = &outcome.root;
    let mut k: usize = 0;
    assert(nav@.skip(0) =~= nav@);
    while k < nav.len()
        invariant
            k <= nav@.len(),
            descend(outcome.root, nav@) == descend(*node, nav@.skip(k as int)),
        decreases nav@.len() - k,
    {
        let i = nav[k];
        assert(nav@.skip(k as int)[0] == i);
        if i < node.children.len() {
            assert(nav@.skip(k as int).drop_first() =~= nav@.skip(k + 1));
            node = &node.children[i];
        } else {
            return node;
        }
        k = k + 1;
    }
    assert(nav@.skip(k as int) =~= Seq::<usize>::empty());
    node
}

/// Names from the scan root down to the current node, for the breadcrumb.
pub fn breadcrumb_names(outcome: &ScanOutcome, nav: &[usize]) -> (names: Vec<String>)
    ensures
        names@.map_values(|s: String| s@) == crumbs(outcome.root, nav@),
{
    let mut names: Vec<String> = Vec::new();
    names.push(outcome.root.name.clone());
    let mut node = &outcome.root;
    let mut k: usize = 0;
    assert(nav@.skip(0) =~= nav@);
    assert(names@.map_values(|s: String| s@).drop_last() =~= Seq::<Seq<char>>::empty());
    assert(crumbs(outcome.root, nav@) =~= Seq::<Seq<char>>::empty() + crumbs(outcome.root, nav@));
    while k < nav.len()
        invariant
            k <= nav@.len(),
            names@.len() > 0,
            crumbs(outcome.root, nav@) == names@.map_values(|s: String| s@).drop_last() + crumbs(
                *node,
                nav@.skip(k as int),
            ),
            names@.last()@ == node.name@,
        decreases nav@.len() - k,
    {
        let ghost before = names@.map_values(|s: String| s@);
        let i = nav[k];
        assert(nav@.skip(k as int)[0] == i);
        if i < node.children.len() {
            assert(nav@.skip(k as int).drop_first() =~= nav@.skip(k + 1));
            node = &node.children[i];
            names.push(node.name.clone());
            assert(names@.map_values(|s: String| s@).drop_last() =~= before);
        } else {
            assert(crumbs(*node, nav@.skip(k as int)) == seq![node.name@]);
            assert(before =~= before.drop_last() + seq![node.name@]);
            return names;
        }
        k = k + 1;
    }
    let ghost v = names@.map_values(|s: String| s@);
    assert(nav@.skip(k as int) =~= Seq::<usize>::empty());
    assert(v =~= v.drop_last() + seq![node.name@]);
    names
}

impl OrganizerApp {
    /// A window that will scan `root`, with nothing scanned yet.
    pub fn new(root: PathBuf) -> (app: OrganizerApp)
        ensures
            app.root == root,
            app.state is Idle,
            app.rx is None,
            app.nav@.len() == 0,
            app.selected is None,
    {
        OrganizerApp { root, state: ScanState::Idle, rx: None, nav: Vec::new(), selected: None }
    }

    /// Whether a scan is running.
    pub fn is_scanning(&self) -> (r: bool)
        ensures
            r == (self.state is Scanning),
    {
        match self.state {
            ScanState::Scanning => true,
            _ => false,
        }
    }

    /// A scan has been started and will answer on `rx`: navigation resets to
    /// the root and the state becomes `Scanning`.
    pub fn begin_scan(&mut self, rx: Receiver<ScanResult>)
        ensures
            final(self).root == old(self).root,
            final(self).state is Scanning,
            final(self).rx == Some(rx),
            final(self).nav@.len() == 0,
            final(self).selected is None,
    {
        self.nav.clear();
        self.selected = None;
        self.rx = Some(rx);
        self.state = ScanState::Scanning;
    }

    /// Record the result of a finished scan: the state becomes `Done` or
    /// `Error` and the channel is dropped.
    pub fn finish_scan(&mut self, result: ScanResult)
        ensures
            final(self).state == state_after(result),
            final(self).rx is None,
            final(self).root == old(self).root,
            final(self).nav == old(self).nav,
            final(self).selected == old(self).selected,
    {
        self.state = match result {
            Ok(outcome) => ScanState::Done(outcome),
            Err(e) => ScanState::Error(e),
        };
        self.rx = None;
    }

    /// Take what the scan channel delivered: a result is recorded as by
    /// [`OrganizerApp::finish_scan`]; nothing delivered changes nothing.
    pub fn record_delivery(&mut self, got: Option<ScanResult>)
        ensures
            match got {
                Some(result) => {
                    &&& final(self).state == state_after(result)
                    &&& final(self).rx is None
                    &&& final(self).root == old(self).root
                    &&& final(self).nav == old(self).nav
                    &&& final(self).selected == old(self).selected
                },
                None => *final(self) == *old(self),
            },
    {
        match got {
            Some(result) => self.finish_scan(result),
            None => {},
        }
    }

    /// Whether a requested scan starts now: only when no scan is running, so
    /// that at most one scan is in flight.
    pub fn scan_wanted(&self, requested: bool) -> (r: bool)
        ensures
            r == starts_scan(*self, requested),
            r ==> requested,
            requested && !(self.state is Scanning) ==> r,
            self.state is Scanning ==> !r,
    {
        requested && !self.is_scanning()
    }

    /// Pull a finished scan result, if the worker has delivered one.
    ///
    /// Without a running scan nothing changes. With one, either nothing has
    /// arrived and nothing changes, or the delivered result is recorded as by
    /// [`OrganizerApp::record_delivery`].
    pub fn poll_scan(&mut self)
        ensures
            final(self).root == old(self).root,
            final(self).nav == old(self).nav,
            final(self).selected == old(self).selected,
            old(self).rx is None ==> *final(self) == *old(self),
            *final(self) == *old(self) || (final(self).rx is None && exists|result: ScanResult|
                final(self).state == state_after(result)),
    {
        let got = match &self.rx {
            Some(rx) => try_receive(rx),
            None => None,
        };
        self.record_delivery(got);
    }

    /// The navigation level that the "Up" button returns to: one level above
    /// the current node, or none at the scan root.
    pub fn up_level(&self) -> (r: Option<usize>)
        ensures
            r == (if self.nav@.len() == 0 {
                None
            } else {
                Some((self.nav@.len() - 1) as usize)
            }),
    {
        if self.nav.len() == 0 {
            None
        } else {
            Some(self.nav.len() - 1)
        }
    }

    /// Apply the user's navigation of one frame, in order: go back up to the
    /// level `nav_to` (a breadcrumb or "Up"), drill into the child `drill`,
    /// select the tile `select`. Moving clears the selection.
    pub fn apply_navigation(&mut self, nav_to: Option<usize>, drill: Option<usize>, select: Option<usize>)
        ensures
            final(self).root == old(self).root,
            final(self).state == old(self).state,
            final(self).rx == old(self).rx,
            final(self).nav@ == nav_after(old(self).nav@, nav_to, drill),
            nav_to is Some && nav_to.unwrap() >= old(self).nav@.len() && drill is None
                ==> final(self).nav@ == old(self).nav@,
            nav_to is Some && nav_to.unwrap() < old(self).nav@.len() && drill is None
                ==> final(self).nav@ == old(self).nav@.take(nav_to.unwrap() as int),
            nav_to is None && drill is None ==> final(self).nav@ == old(self).nav@,
            final(self).selected == (match select {
                Some(i) => Some(i),
                None => if nav_to is Some || drill is Some {
                    None
                } else {
                    old(self).selected
                },
            }),
    {
        match nav_to {
            Some(len) => {
                self.nav.truncate(len);
                self.selected = None;
            },
            None => {},
        }
        match drill {
            Some(i) => {
                self.nav.push(i);
                self.selected = None;
            },
            None => {},
        }
        match select {
            Some(i) => {
                self.selected = Some(i);
            },
            None => {},
        }
    }
}

/// The breadcrumb names every node on the way down: it has one name more
/// than the steps followed, starts at the scan root and ends at the current
/// node.
pub proof fn law_breadcrumb_ends_at_current_node(root: Node, nav: Seq<usize>)
    ensures
        crumbs(root, nav).len() == depth_reached(root, nav) + 1,
        crumbs(root, nav)[0] == root.name@,
        crumbs(root, nav).last() == descend(root, nav).name@,
    decreases nav.len(),
{
    if nav.len() > 0 && nav[0] < root.children@.len() {
        law_breadcrumb_ends_at_current_node(root.children@[nav[0] as int], nav.drop_first());
    }
}

/// The drill path after a frame's navigation, as
/// [`OrganizerApp::apply_navigation`] leaves it.
pub open spec fn nav_after(nav: Seq<usize>, nav_to: Option<usize>, drill: Option<usize>) -> Seq<usize> {
    let up = match nav_to {
        Some(len) => if len < nav.len() {
            nav.take(len as int)
        } else {
            nav
        },
        None => nav,
    };
    match drill {
        Some(i) => up.push(i),
        None => up,
    }
}

/// Drilling into a child and then choosing "Up" returns to where the drill
/// started.
pub proof fn law_up_undoes_drill(nav: Seq<usize>, child: usize)
    requires
        nav.len() < usize::MAX,
    ensures
        nav_after(nav_after(nav, None, Some(child)), Some(nav.len() as usize), None) == nav,
{
    assert(nav.push(child).take(nav.len() as int) =~= nav);
}

/// At most one scan is in flight: while a scan runs, no request starts
/// another, and polling either leaves it running on the same channel or
/// records what it delivered.
pub proof fn law_one_scan_at_a_time(app: OrganizerApp, requested: bool, polled: OrganizerApp)
    requires
        app.state is Scanning,
        polled == app || (polled.rx is None && exists|result: ScanResult|
            polled.state == state_after(result)),
    ensures
        !starts_scan(app, requested),
        polled.state is Scanning ==> polled.rx == app.rx,
{
}

/// Going back to a level keeps exactly the drill steps above it: a level
/// at or beyond the current depth (such as the last breadcrumb, the folder
/// already shown) leaves the path as it is, a shallower one cuts it to that
/// many steps, and drilling adds one step at the end.
pub proof fn law_going_back_cuts_the_path(nav: Seq<usize>, len: usize, child: usize)
    ensures
        len >= nav.len() ==> nav_after(nav, Some(len), None) == nav,
        len < nav.len() ==> nav_after(nav, Some(len), None).len() == len,
        len < nav.len() ==> forall|i: int|
            0 <= i < len ==> #[trigger] nav_after(nav, Some(len), None)[i] == nav[i],
        nav_after(nav, None, None) == nav,
        nav_after(nav, None, Some(child)).len() == nav.len() + 1,
        nav_after(nav, None, Some(child)).last() == child,
        forall|i: int| 0 <= i < nav.len() ==> #[trigger] nav_after(nav, None, Some(child))[i] == nav[i],
{
}

/// A requested scan starts whenever no scan is running, whatever state the
/// last scan left (none yet, finished, or failed), and never without a
/// request.
pub proof fn law_scan_starts_when_none_runs(app: OrganizerApp)
    requires
        !(app.state is Scanning),
    ensures
        starts_scan(app, true),
        !starts_scan(app, false),
{
}

} // verus!
