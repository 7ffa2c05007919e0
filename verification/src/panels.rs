//! Pure state behind the interactive panels: signal selection and plotting
//! choices, dialog state, live-mode configuration, and the byte-pattern
//! analyzer over captured frames. Rendering is a collaborator's concern;
//! everything here is plain data with exact contracts.

use vstd::prelude::*;
use vstd::slice::slice_to_vec;
use vstd::string::StringExecFns;
use crate::frame::CanMessage;
use crate::hardware::InterfaceType;
use crate::text::lit_bytes;
use crate::text::spec_digits;
use crate::text::push_digits;
use crate::text::push_bytes;
use crate::text::push_str_bytes;
use crate::text::bytes_eq;

verus! {

/// A signal as the charts see it: identity plus display metadata.
#[derive(Debug, Clone)]
pub struct SignalInfo {
    /// Signal name.
    pub name: Vec<u8>,
    /// Id of the message the signal belongs to.
    pub msg_id: u32,
    /// Bus the signal was seen on.
    pub bus: u8,
    /// Name of the message the signal belongs to.
    pub msg_name: Vec<u8>,
    /// Unit string, empty when none is declared.
    pub unit: Vec<u8>,
}

impl SignalInfo {
    /// The display name: the signal name followed by its bus.
    pub fn display_name(&self) -> (r: Vec<u8>)
        ensures
            r@ == self.name@ + lit_bytes(" [Bus ") + spec_digits(self.bus as nat) + lit_bytes(
                "]",
            ),
    {
        proof {
            reveal_strlit(" [Bus ");
            reveal_strlit("]");
        }
        let mut r: Vec<u8> = Vec::new();
        push_bytes(&mut r, self.name.as_slice());
        push_str_bytes(&mut r, " [Bus ");
        push_digits(self.bus as u64, &mut r);
        push_str_bytes(&mut r, "]");
        proof {
            assert(r@ =~= self.name@ + lit_bytes(" [Bus ") + spec_digits(self.bus as nat)
                + lit_bytes("]"));
        }
        r
    }

    /// The unique key of the signal: its name qualified by its bus.
    pub fn key(&self) -> (r: Vec<u8>)
        ensures
            r@ == self.name@ + lit_bytes("@bus") + spec_digits(self.bus as nat),
    {
        proof {
            reveal_strlit("@bus");
        }
        let mut r: Vec<u8> = Vec::new();
        push_bytes(&mut r, self.name.as_slice());
        push_str_bytes(&mut r, "@bus");
        push_digits(self.bus as u64, &mut r);
        proof {
            assert(r@ =~= self.name@ + lit_bytes("@bus") + spec_digits(self.bus as nat));
        }
        r
    }
}

/// Does the list of names hold `n`?
pub open spec fn holds_name(s: Seq<Seq<u8>>, n: Seq<u8>) -> bool {
    exists|i: int| 0 <= i < s.len() && s[i] == n
}

/// The list of names with every occurrence of `n` removed, order kept.
pub open spec fn drop_name(s: Seq<Seq<u8>>, n: Seq<u8>) -> Seq<Seq<u8>>
    decreases s.len(),
{
    if s.len() == 0 {
        Seq::empty()
    } else if s.last() == n {
        drop_name(s.drop_last(), n)
    } else {
        drop_name(s.drop_last(), n).push(s.last())
    }
}

/// DBC signal selection state for browsing.
#[derive(Debug, Clone)]
pub struct SignalBrowser {
    /// The names currently shown, in the order they were added.
    pub visible_signals: Vec<Vec<u8>>,
    /// The name currently highlighted, if any.
    pub selected_signal: Option<Vec<u8>>,
}

impl SignalBrowser {
    /// A browser with nothing shown and nothing selected.
    pub fn new() -> (r: Self)
        ensures
            r.visible_signals@ == Seq::<Vec<u8>>::empty(),
            r.selected_signal is None,
    {
        SignalBrowser { visible_signals: Vec::new(), selected_signal: None }
    }

    /// Whether the name is currently shown.
    pub fn is_visible(&self, name: &[u8]) -> (r: bool)
        ensures
            r == holds_name(self.visible_signals.deep_view(), name@),
    {
        let ghost dv = self.visible_signals.deep_view();
        let mut i: usize = 0;
        while i < self.visible_signals.len()
            invariant
                i <= dv.len(),
                dv == self.visible_signals.deep_view(),
                dv.len() == self.visible_signals@.len(),
                forall|j: int| 0 <= j < i ==> dv[j] != name@,
            decreases self.visible_signals@.len() - i,
        {
            proof {
                assert(dv[i as int] == self.visible_signals@[i as int]@);
            }
            if bytes_eq(self.visible_signals[i].as_slice(), name) {
                return true;
            }
            i = i + 1;
        }
        false
    }

    /// Show the name; showing an already shown name changes nothing.
    pub fn add_signal(&mut self, name: &[u8])
        ensures
            holds_name(old(self).visible_signals.deep_view(), name@) ==> final(self).visible_signals.deep_view() == old(self).visible_signals.deep_view(),
            !holds_name(old(self).visible_signals.deep_view(), name@) ==> final(self).visible_signals.deep_view() == old(self).visible_signals.deep_view().push(name@),
            final(self).selected_signal == old(self).selected_signal,
    {
        if !self.is_visible(name) {
            let ghost dv = self.visible_signals.deep_view();
            let v = slice_to_vec(name);
            self.visible_signals.push(v);
            proof {
                assert(self.visible_signals.deep_view() =~~= dv.push(name@));
            }
        }
    }

    /// Hide every occurrence of the name.
    pub fn remove_signal(&mut self, name: &[u8])
        ensures
            final(self).visible_signals.deep_view() == drop_name(
                old(self).visible_signals.deep_view(),
                name@,
            ),
            final(self).selected_signal == old(self).selected_signal,
    {
        let ghost orig = self.visible_signals.deep_view();
        let mut kept: Vec<Vec<u8>> = Vec::new();
        let mut i: usize = 0;
        proof {
            assert(orig.take(0) =~= Seq::<Seq<u8>>::empty());
            assert(kept.deep_view() =~= drop_name(orig.take(0), name@));
        }
        while i < self.visible_signals.len()
            invariant
                i <= orig.len(),
                orig == self.visible_signals.deep_view(),
                orig.len() == self.visible_signals@.len(),
                self.selected_signal == old(self).selected_signal,
                self.visible_signals == old(self).visible_signals,
                kept.deep_view() =~= drop_name(orig.take(i as int), name@),
            decreases orig.len() - i,
        {
            proof {
                assert(orig[i as int] == self.visible_signals@[i as int]@);
                assert(orig.take(i as int + 1).drop_last() =~= orig.take(i as int));
                assert(orig.take(i as int + 1).last() == orig[i as int]);
            }
            if !bytes_eq(self.visible_signals[i].as_slice(), name) {
                let ghost kv = kept.deep_view();
                kept.push(slice_to_vec(self.visible_signals[i].as_slice()));
                proof {
                    assert(kept.deep_view() =~~= kv.push(orig[i as int]));
                }
            }
            i = i + 1;
        }
        proof {
            assert(orig.take(orig.len() as int) =~= orig);
        }
        self.visible_signals = kept;
    }

    /// Toggle the name: hide it if shown, show it otherwise.
    pub fn toggle_signal(&mut self, name: &[u8])
        ensures
            holds_name(old(self).visible_signals.deep_view(), name@) ==> final(self).visible_signals.deep_view() == drop_name(
                old(self).visible_signals.deep_view(),
                name@,
            ),
            !holds_name(old(self).visible_signals.deep_view(), name@) ==> final(self).visible_signals.deep_view() == old(self).visible_signals.deep_view().push(name@),
            final(self).selected_signal == old(self).selected_signal,
    {
        if self.is_visible(name) {
            self.remove_signal(name);
        } else {
            self.add_signal(name);
        }
    }
}

/// A signal that can be plotted.
#[derive(Debug, Clone)]
pub struct PlottableSignal {
    /// Id of the owning message.
    pub message_id: u32,
    /// Name of the owning message.
    pub message_name: Vec<u8>,
    /// Signal name.
    pub signal_name: Vec<u8>,
    /// Unit, if declared.
    pub unit: Option<Vec<u8>>,
    /// Whether the signal is currently plotted.
    pub is_plotted: bool,
}

/// The `(message id, signal name)` pairs of the plotted entries, in order.
pub open spec fn plotted_of(s: Seq<PlottableSignal>) -> Seq<(u32, Seq<u8>)>
    decreases s.len(),
{
    if s.len() == 0 {
        Seq::empty()
    } else {
        (if s[0].is_plotted {
            seq![(s[0].message_id, s[0].signal_name@)]
        } else {
            Seq::empty()
        }) + plotted_of(s.drop_first())
    }
}

/// The first entry matching a message id and signal name, if any.
pub open spec fn plot_idx(s: Seq<PlottableSignal>, id: u32, name: Seq<u8>, i: nat) -> Option<nat>
    decreases s.len() - i,
{
    if i >= s.len() {
        None
    } else if s[i as int].message_id == id && s[i as int].signal_name@ == name {
        Some(i)
    } else {
        plot_idx(s, id, name, i + 1)
    }
}

/// Window state for browsing and selecting signals to plot.
#[derive(Debug, Clone)]
pub struct SignalListWindow {
    /// The message currently selected, if any.
    pub selected_message: Option<u32>,
    /// The filter text typed by the user.
    pub filter_text: Vec<u8>,
    /// Every signal that can be plotted, with its plot flag.
    pub plottable_signals: Vec<PlottableSignal>,
}

impl SignalListWindow {
    /// An empty window: nothing selected, nothing filtered, nothing listed.
    pub fn new() -> (r: Self)
        ensures
            r.selected_message is None,
            r.filter_text@ == Seq::<u8>::empty(),
            r.plottable_signals@ == Seq::<PlottableSignal>::empty(),
    {
        SignalListWindow {
            selected_message: None,
            filter_text: Vec::new(),
            plottable_signals: Vec::new(),
        }
    }

    /// The `(message id, signal name)` pairs currently marked for
    /// plotting, in list order.
    pub fn get_plotted_signals(&self) -> (r: Vec<(u32, Vec<u8>)>)
        ensures
            r.deep_view() == plotted_of(self.plottable_signals@),
    {
        let mut r: Vec<(u32, Vec<u8>)> = Vec::new();
        let mut i: usize = 0;
        proof {
            assert(self.plottable_signals@.skip(0) =~= self.plottable_signals@);
            assert(r.deep_view() + plotted_of(self.plottable_signals@) =~= plotted_of(
                self.plottable_signals@,
            ));
        }
        while i < self.plottable_signals.len()
            invariant
                i <= self.plottable_signals@.len(),
                r.deep_view() + plotted_of(self.plottable_signals@.skip(i as int)) =~= plotted_of(
                    self.plottable_signals@,
                ),
            decreases self.plottable_signals@.len() - i,
        {
            proof {
                assert(self.plottable_signals@.skip(i as int)[0]
                    == self.plottable_signals@[i as int]);
                assert(self.plottable_signals@.skip(i as int).drop_first()
                    =~= self.plottable_signals@.skip(i as int + 1));
            }
            let p = &self.plottable_signals[i];
            if p.is_plotted {
                let ghost dv = r.deep_view();
                r.push((p.message_id, slice_to_vec(p.signal_name.as_slice())));
                proof {
                    assert(r.deep_view() =~~= dv.push(
                        (p.message_id, self.plottable_signals@[i as int].signal_name@),
                    ));
                }
            }
            i = i + 1;
        }
        proof {
            assert(plotted_of(self.plottable_signals@.skip(self.plottable_signals@.len() as int))
                =~= Seq::<(u32, Seq<u8>)>::empty());
            assert(r.deep_view() =~= plotted_of(self.plottable_signals@));
        }
        r
    }

    /// Flip the plot flag of the first entry matching the id and name;
    /// without a match nothing changes.
    pub fn toggle_plot(&mut self, message_id: u32, signal_name: &[u8])
        ensures
            final(self).selected_message == old(self).selected_message,
            final(self).filter_text == old(self).filter_text,
            match plot_idx(old(self).plottable_signals@, message_id, signal_name@, 0) {
                None => final(self).plottable_signals@ == old(self).plottable_signals@,
                Some(k) => final(self).plottable_signals@ == old(
                    self,
                ).plottable_signals@.update(
                    k as int,
                    PlottableSignal {
                        is_plotted: !old(self).plottable_signals@[k as int].is_plotted,
                        ..old(self).plottable_signals@[k as int]
                    },
                ),
            },
    {
        let ghost orig = self.plottable_signals@;
        let mut i: usize = 0;
        while i < self.plottable_signals.len()
            invariant
                i <= orig.len(),
                orig == old(self).plottable_signals@,
                self.plottable_signals@ == orig,
                self.selected_message == old(self).selected_message,
                self.filter_text == old(self).filter_text,
                plot_idx(orig, message_id, signal_name@, 0) == plot_idx(
                    orig,
                    message_id,
                    signal_name@,
                    i as nat,
                ),
            decreases orig.len() - i,
        {
            if self.plottable_signals[i].message_id == message_id && bytes_eq(
                self.plottable_signals[i].signal_name.as_slice(),
                signal_name,
            ) {
                proof {
                    assert(plot_idx(orig, message_id, signal_name@, i as nat) == Some(i as nat));
                    assert(plot_idx(old(self).plottable_signals@, message_id, signal_name@, 0)
                        == Some(i as nat));
                }
                let p = self.plottable_signals.remove(i);
                let flipped = !p.is_plotted;
                self.plottable_signals.insert(i, PlottableSignal { is_plotted: flipped, ..p });
                proof {
                    assert(self.plottable_signals@ =~= orig.update(
                        i as int,
                        PlottableSignal { is_plotted: !orig[i as int].is_plotted, ..orig[
                            i as int
                        ] },
                    ));
                }
                return ;
            }
            i = i + 1;
        }
        proof {
            assert(plot_idx(orig, message_id, signal_name@, orig.len() as nat) is None);
        }
    }

    /// Set the plot flag of the first entry matching the id and name;
    /// without a match nothing changes.
    pub fn set_plot(&mut self, message_id: u32, signal_name: &[u8], plotted: bool)
        ensures
            final(self).selected_message == old(self).selected_message,
            final(self).filter_text == old(self).filter_text,
            match plot_idx(old(self).plottable_signals@, message_id, signal_name@, 0) {
                None => final(self).plottable_signals@ == old(self).plottable_signals@,
                Some(k) => final(self).plottable_signals@ == old(
                    self,
                ).plottable_signals@.update(
                    k as int,
                    PlottableSignal { is_plotted: plotted, ..old(self).plottable_signals@[
                        k as int
                    ] },
                ),
            },
    {
        let ghost orig = self.plottable_signals@;
        let mut i: usize = 0;
        while i < self.plottable_signals.len()
            invariant
                i <= orig.len(),
                orig == old(self).plottable_signals@,
                self.plottable_signals@ == orig,
                self.selected_message == old(self).selected_message,
                self.filter_text == old(self).filter_text,
                plot_idx(orig, message_id, signal_name@, 0) == plot_idx(
                    orig,
                    message_id,
                    signal_name@,
                    i as nat,
                ),
            decreases orig.len() - i,
        {
            if self.plottable_signals[i].message_id == message_id && bytes_eq(
                self.plottable_signals[i].signal_name.as_slice(),
                signal_name,
            ) {
                proof {
                    assert(plot_idx(orig, message_id, signal_name@, i as nat) == Some(i as nat));
                    assert(plot_idx(old(self).plottable_signals@, message_id, signal_name@, 0)
                        == Some(i as nat));
                }
                let p = self.plottable_signals.remove(i);
                self.plottable_signals.insert(i, PlottableSignal { is_plotted: plotted, ..p });
                proof {
                    assert(self.plottable_signals@ =~= orig.update(
                        i as int,
                        PlottableSignal { is_plotted: plotted, ..orig[i as int] },
                    ));
                }
                return ;
            }
            i = i + 1;
        }
        proof {
            assert(plot_idx(orig, message_id, signal_name@, orig.len() as nat) is None);
        }
    }

    /// Clear the plot flag of every entry.
    pub fn clear_all_plots(&mut self)
        ensures
            final(self).selected_message == old(self).selected_message,
            final(self).filter_text == old(self).filter_text,
            final(self).plottable_signals@.len() == old(self).plottable_signals@.len(),
            forall|k: int|
                0 <= k < final(self).plottable_signals@.len() ==> final(self).plottable_signals@[k]
                    == (PlottableSignal {
                    is_plotted: false,
                    ..old(self).plottable_signals@[k]
                }),
    {
        let ghost orig = self.plottable_signals@;
        let mut i: usize = 0;
        while i < self.plottable_signals.len()
            invariant
                i <= orig.len(),
                self.plottable_signals@.len() == orig.len(),
                self.selected_message == old(self).selected_message,
                self.filter_text == old(self).filter_text,
                forall|k: int|
                    0 <= k < i ==> self.plottable_signals@[k] == (PlottableSignal {
                        is_plotted: false,
                        ..orig[k]
                    }),
                forall|k: int| i <= k < orig.len() ==> self.plottable_signals@[k] == orig[k],
            decreases orig.len() - i,
        {
            let p = self.plottable_signals.remove(i);
            self.plottable_signals.insert(i, PlottableSignal { is_plotted: false, ..p });
            i = i + 1;
        }
    }
}

/// Editor state for the value table of one signal.
#[derive(Debug, Clone)]
pub struct ValueTableEditor {
    /// The signal being edited.
    pub signal_name: Vec<u8>,
    /// The table rows: value and description.
    pub values: Vec<(u32, Vec<u8>)>,
    /// The value field being typed.
    pub new_value: Vec<u8>,
    /// The description field being typed.
    pub new_description: Vec<u8>,
}

impl ValueTableEditor {
    /// An empty editor.
    pub fn new() -> (r: Self)
        ensures
            r.signal_name@ == Seq::<u8>::empty(),
            r.values@ == Seq::<(u32, Vec<u8>)>::empty(),
            r.new_value@ == Seq::<u8>::empty(),
            r.new_description@ == Seq::<u8>::empty(),
    {
        ValueTableEditor {
            signal_name: Vec::new(),
            values: Vec::new(),
            new_value: Vec::new(),
            new_description: Vec::new(),
        }
    }

    /// Load a signal's table into the editor.
    pub fn set_signal(&mut self, name: &[u8], values: &Vec<(u32, Vec<u8>)>)
        ensures
            final(self).signal_name@ == name@,
            final(self).values.deep_view() == values.deep_view(),
            final(self).new_value == old(self).new_value,
            final(self).new_description == old(self).new_description,
    {
        self.signal_name = slice_to_vec(name);
        let ghost target = values.deep_view();
        let mut copied: Vec<(u32, Vec<u8>)> = Vec::new();
        let mut i: usize = 0;
        while i < values.len()
            invariant
                i <= target.len(),
                target == values.deep_view(),
                target.len() == values@.len(),
                copied.deep_view() =~= target.take(i as int),
            decreases values@.len() - i,
        {
            proof {
                assert(target[i as int] == values@[i as int].deep_view());
            }
            let ghost cv = copied.deep_view();
            let row = (values[i].0, slice_to_vec(values[i].1.as_slice()));
            copied.push(row);
            proof {
                assert(copied.deep_view() =~~= cv.push(target[i as int]));
                assert(copied.deep_view() =~= target.take(i as int + 1));
            }
            i = i + 1;
        }
        proof {
            assert(target.take(target.len() as int) =~= target);
        }
        self.values = copied;
    }
}

impl Default for ValueTableEditor {
    /// An empty editor.
    fn default() -> (r: Self)
        ensures
            r.signal_name@ == Seq::<u8>::empty(),
            r.values@ == Seq::<(u32, Vec<u8>)>::empty(),
    {
        ValueTableEditor::new()
    }
}

/// Interface information as the live-mode panel shows it.
#[derive(Debug, Clone)]
pub struct InterfaceInfoUI {
    /// Interface name.
    pub name: String,
    /// Interface type.
    pub interface_type: InterfaceType,
    /// Description text.
    pub description: String,
    /// Whether the interface can be connected.
    pub available: bool,
}

/// Live capture configuration.
#[derive(Debug, Clone)]
pub struct LiveCanConfig {
    /// Bitrate in bits per second.
    pub bitrate: u32,
    /// Listen without transmitting.
    pub listen_only: bool,
    /// Start capturing as soon as connected.
    pub auto_start: bool,
}

impl Default for LiveCanConfig {
    /// Half a megabit, listen-only, auto-starting.
    fn default() -> (r: Self)
        ensures
            r.bitrate == 500_000,
            r.listen_only,
            r.auto_start,
    {
        LiveCanConfig { bitrate: 500_000, listen_only: true, auto_start: true }
    }
}

/// Actions requested from the hardware manager panel.
#[derive(Debug, Clone)]
pub enum LiveModeAction {
    /// Nothing requested.
    Idle,
    /// Connect to an interface with a configuration.
    Connect { interface: String, config: LiveCanConfig },
    /// Disconnect the current interface.
    Disconnect,
    /// Send one frame.
    SendMessage { id: u32, data: Vec<u8> },
    /// Begin recording received frames.
    StartRecording,
    /// Stop recording.
    StopRecording,
    /// Save what was recorded.
    SaveData,
}

/// State of the live message list window.
#[derive(Debug, Clone)]
pub struct LiveMessageWindow {
    /// Filter text for CAN ids.
    pub filter_id: String,
    /// Keep the view scrolled to the newest frame.
    pub auto_scroll: bool,
    /// Show the timestamp column.
    pub show_timestamp: bool,
}

impl LiveMessageWindow {
    /// A fresh window: no filter, auto-scrolling, timestamps shown.
    pub fn new() -> (r: Self)
        ensures
            r.filter_id@ == Seq::<char>::empty(),
            r.auto_scroll,
            r.show_timestamp,
    {
        LiveMessageWindow { filter_id: String::new(), auto_scroll: true, show_timestamp: true }
    }
}

impl Default for LiveMessageWindow {
    /// A fresh window: no filter, auto-scrolling, timestamps shown.
    fn default() -> (r: Self)
        ensures
            r.filter_id@ == Seq::<char>::empty(),
            r.auto_scroll,
            r.show_timestamp,
    {
        LiveMessageWindow::new()
    }
}

/// State of the frame-sending window.
#[derive(Debug, Clone)]
pub struct MessageSenderWindow {
    /// The id field being typed.
    pub id_input: String,
    /// The payload field being typed.
    pub data_input: String,
    /// The last send error, if any.
    pub last_error: Option<String>,
}

impl MessageSenderWindow {
    /// A fresh window with a zero id and an empty eight-byte payload.
    pub fn new() -> (r: Self)
        ensures
            r.id_input@ == "0x000"@,
            r.data_input@ == "00 00 00 00 00 00 00 00"@,
            r.last_error is None,
    {
        MessageSenderWindow {
            id_input: String::from_str("0x000"),
            data_input: String::from_str("00 00 00 00 00 00 00 00"),
            last_error: None,
        }
    }
}

impl Default for MessageSenderWindow {
    /// A fresh window with a zero id and an empty eight-byte payload.
    fn default() -> (r: Self)
        ensures
            r.id_input@ == "0x000"@,
            r.data_input@ == "00 00 00 00 00 00 00 00"@,
            r.last_error is None,
    {
        MessageSenderWindow::new()
    }
}

/// An action bound to a keyboard shortcut.
#[derive(Debug, Clone, Copy, PartialEq, Eq, Structural)]
pub enum ShortcutAction {
    OpenFile,
    LoadDbc,
    SaveDbc,
    Play,
    Pause,
    Stop,
    ToggleMessages,
    ToggleGraph,
    ToggleFullscreen,
    ExportCsv,
    ClearData,
    SeekForward,
    SeekBackward,
    SpeedUp,
    SpeedDown,
    Quit,
}

/// The format data is exported in.
#[derive(Debug, Clone, Copy, PartialEq, Eq, Structural)]
pub enum ExportType {
    Csv,
    Json,
    Log,
}

/// A confirmed export request.
#[derive(Debug, Clone)]
pub struct ExportRequest {
    /// The format to export in.
    pub export_type: ExportType,
    /// Include timestamps in the output.
    pub include_timestamps: bool,
    /// Include decoded signal values in the output.
    pub include_decoded: bool,
}

/// State of the export dialog.
#[derive(Debug, Clone)]
pub struct ExportDialog {
    /// Whether the dialog is open.
    pub show: bool,
    /// The format chosen.
    pub export_type: ExportType,
    /// Include timestamps in the output.
    pub include_timestamps: bool,
    /// Include decoded signal values in the output.
    pub include_decoded: bool,
    /// The last status text, if any.
    pub status: Option<String>,
}

impl ExportDialog {
    /// A closed dialog with CSV chosen and timestamps on.
    pub fn new() -> (r: Self)
        ensures
            !r.show,
            r.export_type == ExportType::Csv,
            r.include_timestamps,
            !r.include_decoded,
            r.status is None,
    {
        ExportDialog {
            show: false,
            export_type: ExportType::Csv,
            include_timestamps: true,
            include_decoded: false,
            status: None,
        }
    }

    /// Open the dialog, clearing any stale status.
    pub fn show(&mut self)
        ensures
            final(self).show,
            final(self).status is None,
            final(self).export_type == old(self).export_type,
            final(self).include_timestamps == old(self).include_timestamps,
            final(self).include_decoded == old(self).include_decoded,
    {
        self.show = true;
        self.status = None;
    }
}

impl Default for ExportDialog {
    /// A closed dialog with CSV chosen and timestamps on.
    fn default() -> (r: Self)
        ensures
            !r.show,
            r.export_type == ExportType::Csv,
            r.status is None,
    {
        ExportDialog::new()
    }
}

/// State of the about dialog.
#[derive(Debug, Clone)]
pub struct AboutDialog {
    /// Whether the dialog is open.
    pub show: bool,
}

impl AboutDialog {
    /// A closed dialog.
    pub fn new() -> (r: Self)
        ensures
            !r.show,
    {
        AboutDialog { show: false }
    }

    /// Open the dialog.
    pub fn show(&mut self)
        ensures
            final(self).show,
    {
        self.show = true;
    }
}

impl Default for AboutDialog {
    /// A closed dialog.
    fn default() -> (r: Self)
        ensures
            !r.show,
    {
        AboutDialog::new()
    }
}

/// Per-byte behaviour of one message id over a capture.
#[derive(Debug, Clone)]
pub struct BytePattern {
    /// Which payload byte the pattern describes.
    pub byte_index: usize,
    /// Whether the byte held a single value throughout.
    pub is_constant: bool,
    /// That value, when constant.
    pub constant_value: Option<u8>,
    /// How many distinct values the byte held.
    pub unique_values: usize,
    /// How many adjacent pairs of frames changed the byte.
    pub changes: usize,
}

/// How many frames of the capture carry the id.
pub open spec fn count_id(ms: Seq<CanMessage>, id: u32) -> nat
    decreases ms.len(),
{
    if ms.len() == 0 {
        0
    } else {
        count_id(ms.drop_last(), id) + (if ms.last().id == id {
            1nat
        } else {
            0nat
        })
    }
}

/// Does the id sequence hold `x`?
pub open spec fn holds_id(s: Seq<u32>, x: u32) -> bool {
    exists|i: int| 0 <= i < s.len() && s[i] == x
}

/// Strictly ascending ids.
pub open spec fn ids_sorted(s: Seq<u32>) -> bool {
    forall|i: int, j: int| 0 <= i < j < s.len() ==> s[i] < s[j]
}

/// A capture with at least one frame of the id has an index carrying it.
proof fn lemma_count_id_pos(ms: Seq<CanMessage>, id: u32)
    requires
        count_id(ms, id) >= 1,
    ensures
        exists|j: int| 0 <= j < ms.len() && ms[j].id == id,
    decreases ms.len(),
{
    if ms.len() > 0 {
        if ms.last().id == id {
            assert(ms[ms.len() - 1].id == id);
        } else {
            lemma_count_id_pos(ms.drop_last(), id);
            let j = choose|j: int| 0 <= j < ms.drop_last().len() && ms.drop_last()[j].id == id;
            assert(ms[j].id == id);
        }
    }
}

/// The ids with `v` inserted at its sorted position, or unchanged if `v`
/// is already present.
pub open spec fn add_id(s: Seq<u32>, v: u32) -> Seq<u32>
    decreases s.len(),
{
    if s.len() == 0 {
        seq![v]
    } else if v < s[0] {
        seq![v] + s
    } else if v == s[0] {
        s
    } else {
        seq![s[0]] + add_id(s.drop_first(), v)
    }
}

/// Inserting an id adds exactly that id to the list's contents.
proof fn lemma_add_id_holds(s: Seq<u32>, v: u32, x: u32)
    ensures
        holds_id(add_id(s, v), x) <==> (holds_id(s, x) || x == v),
    decreases s.len(),
{
    let r = add_id(s, v);
    if s.len() == 0 {
        assert(r[0] == v);
        if holds_id(r, x) {
            let k = choose|k: int| 0 <= k < r.len() && r[k] == x;
            assert(r[k] == v);
        }
    } else if v < s[0] {
        assert(r == seq![v] + s);
        if holds_id(r, x) {
            let k = choose|k: int| 0 <= k < r.len() && r[k] == x;
            if k > 0 {
                assert(s[k - 1] == x);
            }
        }
        if holds_id(s, x) {
            let k = choose|k: int| 0 <= k < s.len() && s[k] == x;
            assert(r[k + 1] == x);
        }
        assert(r[0] == v);
    } else if v == s[0] {
        assert(holds_id(s, v)) by {
            assert(s[0] == v);
        }
    } else {
        lemma_add_id_holds(s.drop_first(), v, x);
        assert(r == seq![s[0]] + add_id(s.drop_first(), v));
        if holds_id(r, x) {
            let k = choose|k: int| 0 <= k < r.len() && r[k] == x;
            if k > 0 {
                assert(add_id(s.drop_first(), v)[k - 1] == x);
                if holds_id(s.drop_first(), x) {
                    let m = choose|m: int|
                        0 <= m < s.drop_first().len() && s.drop_first()[m] == x;
                    assert(s[m + 1] == x);
                }
            } else {
                assert(s[0] == x);
            }
        }
        if holds_id(s, x) {
            let k = choose|k: int| 0 <= k < s.len() && s[k] == x;
            if k == 0 {
                assert(r[0] == x);
            } else {
                assert(s.drop_first()[k - 1] == x);
                assert(holds_id(s.drop_first(), x));
                let m = choose|m: int|
                    0 <= m < add_id(s.drop_first(), v).len() && add_id(s.drop_first(), v)[m]
                        == x;
                assert(r[m + 1] == x);
            }
        }
        if x == v {
            let m = choose|m: int|
                0 <= m < add_id(s.drop_first(), v).len() && add_id(s.drop_first(), v)[m] == x;
            assert(r[m + 1] == x);
        }
    }
}

/// Inserting keeps the list strictly ascending.
proof fn lemma_add_id_sorted(s: Seq<u32>, v: u32)
    requires
        ids_sorted(s),
    ensures
        ids_sorted(add_id(s, v)),
    decreases s.len(),
{
    let r = add_id(s, v);
    if s.len() == 0 {
    } else if v < s[0] {
        assert forall|a: int, b: int| 0 <= a < b < r.len() implies r[a] < r[b] by {
            if a > 0 {
                assert(r[a] == s[a - 1] && r[b] == s[b - 1]);
            } else {
                assert(r[b] == s[b - 1] && s[b - 1] >= s[0]);
            }
        }
    } else if v == s[0] {
    } else {
        assert(forall|a: int, b: int|
            0 <= a < b < s.drop_first().len() ==> s.drop_first()[a] < s.drop_first()[b]);
        lemma_add_id_sorted(s.drop_first(), v);
        let t = add_id(s.drop_first(), v);
        assert forall|a: int, b: int| 0 <= a < b < r.len() implies r[a] < r[b] by {
            if a == 0 {
                assert(r[b] == t[b - 1]);
                lemma_add_id_holds(s.drop_first(), v, t[b - 1]);
                if holds_id(s.drop_first(), t[b - 1]) {
                    let m = choose|m: int|
                        0 <= m < s.drop_first().len() && s.drop_first()[m] == t[b - 1];
                    assert(s[m + 1] > s[0]);
                }
            } else {
                assert(r[a] == t[a - 1] && r[b] == t[b - 1]);
            }
        }
    }
}

/// Insert an id into a strictly ascending list, keeping it ascending.
fn insert_id(ids: &mut Vec<u32>, v: u32)
    requires
        ids_sorted(old(ids)@),
    ensures
        final(ids)@ == add_id(old(ids)@, v),
        ids_sorted(final(ids)@),
{
    let ghost orig = ids@;
    let mut i: usize = 0;
    proof {
        assert(orig.skip(0) =~= orig);
        assert(add_id(orig, v) =~= orig.take(0) + add_id(orig.skip(0), v));
    }
    while i < ids.len() && ids[i] < v
        invariant
            i <= orig.len(),
            ids@ == orig,
            ids_sorted(orig),
            forall|j: int| 0 <= j < i ==> orig[j] < v,
            add_id(orig, v) =~= orig.take(i as int) + add_id(orig.skip(i as int), v),
        decreases orig.len() - i,
    {
        proof {
            assert(orig.skip(i as int)[0] == orig[i as int]);
            assert(orig.skip(i as int).drop_first() =~= orig.skip(i as int + 1));
            assert(orig.take(i as int + 1) =~= orig.take(i as int) + seq![orig[i as int]]);
            assert(orig.take(i as int) + (seq![orig[i as int]] + add_id(
                orig.skip(i as int + 1),
                v,
            )) =~= orig.take(i as int + 1) + add_id(orig.skip(i as int + 1), v));
        }
        i = i + 1;
    }
    proof {
        if i < orig.len() {
            assert(orig.skip(i as int)[0] == orig[i as int]);
        }
    }
    if i < ids.len() && ids[i] == v {
        proof {
            assert(add_id(orig.skip(i as int), v) =~= orig.skip(i as int));
            assert(orig.take(i as int) + orig.skip(i as int) =~= orig);
        }
        return ;
    }
    ids.insert(i, v);
    proof {
        if i < orig.len() {
            assert(add_id(orig.skip(i as int), v) =~= seq![v] + orig.skip(i as int));
        } else {
            assert(orig.skip(i as int) =~= Seq::<u32>::empty());
            assert(add_id(orig.skip(i as int), v) =~= seq![v]);
        }
        assert(ids@ =~= orig.take(i as int) + add_id(orig.skip(i as int), v));
        assert(ids@ =~= add_id(orig, v));
        lemma_add_id_sorted(orig, v);
    }
}

/// Byte-pattern analysis of captured frames, grouped by message id.
#[derive(Debug, Clone)]
pub struct PatternAnalyzer {
    /// One entry per analysed id, ids strictly ascending: the per-byte
    /// patterns of that id's frames.
    pub patterns: Vec<(u32, Vec<BytePattern>)>,
}

impl PatternAnalyzer {
    /// An analyzer with nothing analysed.
    pub fn new() -> (r: Self)
        ensures
            r.patterns@ == Seq::<(u32, Vec<BytePattern>)>::empty(),
    {
        PatternAnalyzer { patterns: Vec::new() }
    }

    /// Analyse a capture: every message id seen at least twice gets one
    /// entry, ids ascending, describing how each payload byte behaved
    /// across that id's frames.
    pub fn analyze(&mut self, messages: &[CanMessage])
        ensures
            ids_sorted(final(self).patterns@.map_values(|p: (u32, Vec<BytePattern>)| p.0)),
            forall|k: int|
                0 <= k < final(self).patterns@.len() ==> count_id(
                    messages@,
                    (#[trigger] final(self).patterns@[k]).0,
                ) >= 2,
            forall|id: u32|
                count_id(messages@, id) >= 2 ==> holds_id(
                    final(self).patterns@.map_values(|p: (u32, Vec<BytePattern>)| p.0),
                    id,
                ),
            forall|k: int, c: int|
                0 <= k < final(self).patterns@.len()
                    && 0 <= c < (#[trigger] final(self).patterns@[k]).1@.len()
                    ==> (#[trigger] final(self).patterns@[k].1@[c]).byte_index == c,
    {
        self.patterns = Vec::new();
        let mut ids: Vec<u32> = Vec::new();
        let mut i: usize = 0;
        while i < messages.len()
            invariant
                i <= messages@.len(),
                ids_sorted(ids@),
                forall|j: int| 0 <= j < i ==> holds_id(ids@, messages@[j].id),
            decreases messages.len() - i,
        {
            let ghost before = ids@;
            let v = messages[i].id;
            insert_id(&mut ids, v);
            proof {
                assert forall|j: int| 0 <= j < i + 1 implies holds_id(
                    ids@,
                    messages@[j].id,
                ) by {
                    lemma_add_id_holds(before, v, messages@[j].id);
                }
            }
            i = i + 1;
        }
        let mut p: usize = 0;
        while p < ids.len()
            invariant
                p <= ids@.len(),
                ids_sorted(ids@),
                forall|j: int| 0 <= j < messages@.len() ==> holds_id(ids@, messages@[j].id),
                ids_sorted(self.patterns@.map_values(|q: (u32, Vec<BytePattern>)| q.0)),
                forall|k: int|
                    0 <= k < self.patterns@.len() ==> count_id(
                        messages@,
                        (#[trigger] self.patterns@[k]).0,
                    ) >= 2,
                forall|k: int|
                    0 <= k < self.patterns@.len() ==> exists|q: int|
                        0 <= q < p && ids@[q] == (#[trigger] self.patterns@[k]).0,
                forall|q: int|
                    0 <= q < p && count_id(messages@, ids@[q]) >= 2 ==> holds_id(
                        self.patterns@.map_values(|w: (u32, Vec<BytePattern>)| w.0),
                        #[trigger] ids@[q],
                    ),
                forall|k: int, c: int|
                    0 <= k < self.patterns@.len() && 0 <= c < (#[trigger] self.patterns@[k]).1@.len()
                        ==> (#[trigger] self.patterns@[k].1@[c]).byte_index == c,
            decreases ids@.len() - p,
        {
            let ghost entry_keys = self.patterns@.map_values(|w: (u32, Vec<BytePattern>)| w.0);
            let id = ids[p];
            let mut count: usize = 0;
            let mut max_len: usize = 0;
            let mut j: usize = 0;
            proof {
                assert(messages@.take(0) =~= Seq::<CanMessage>::empty());
            }
            while j < messages.len()
                invariant
                    j <= messages@.len(),
                    count == count_id(messages@.take(j as int), id),
                    count <= j,
                    max_len <= 8 || max_len <= usize::MAX,
                decreases messages.len() - j,
            {
                proof {
                    assert(messages@.take(j as int + 1).drop_last() =~= messages@.take(j as int));
                    assert(messages@.take(j as int + 1).last() == messages@[j as int]);
                }
                if messages[j].id == id {
                    count = count + 1;
                    if messages[j].data.len() > max_len {
                        max_len = messages[j].data.len();
                    }
                }
                j = j + 1;
            }
            proof {
                assert(messages@.take(messages@.len() as int) =~= messages@);
            }
            if count >= 2 {
                let mut pats: Vec<BytePattern> = Vec::new();
                let mut col: usize = 0;
                while col < max_len
                    invariant
                        col <= max_len,
                        pats@.len() == col,
                        forall|c: int| 0 <= c < col ==> (#[trigger] pats@[c]).byte_index == c,
                    decreases max_len - col,
                {
                    let mut seen: Vec<u8> = Vec::new();
                    let mut changes: usize = 0;
                    let mut prev: Option<Option<u8>> = None;
                    let mut j2: usize = 0;
                    while j2 < messages.len()
                        invariant
                            j2 <= messages@.len(),
                            changes <= j2,
                            seen@.len() <= j2,
                        decreases messages.len() - j2,
                    {
                        if messages[j2].id == id {
                            let cur: Option<u8> = if col < messages[j2].data.len() {
                                Some(messages[j2].data[col])
                            } else {
                                None
                            };
                            match cur {
                                Some(b) => {
                                    let mut found = false;
                                    let mut t: usize = 0;
                                    while t < seen.len()
                                        invariant
                                            t <= seen@.len(),
                                        decreases seen.len() - t,
                                    {
                                        if seen[t] == b {
                                            found = true;
                                        }
                                        t = t + 1;
                                    }
                                    if !found {
                                        seen.push(b);
                                    }
                                },
                                None => {},
                            }
                            let changed: bool = match (&prev, &cur) {
                                (Some(Some(a)), Some(b)) => *a != *b,
                                (Some(None), Some(_)) => true,
                                (Some(Some(_)), None) => true,
                                (Some(None), None) => false,
                                (None, _) => false,
                            };
                            if changed && changes < usize::MAX {
                                changes = changes + 1;
                            }
                            prev = Some(cur);
                        }
                        j2 = j2 + 1;
                    }
                    let uniq = seen.len();
                    let constant = uniq == 1;
                    let cval: Option<u8> = if constant {
                        Some(seen[0])
                    } else {
                        None
                    };
                    pats.push(
                        BytePattern {
                            byte_index: col,
                            is_constant: constant,
                            constant_value: cval,
                            unique_values: uniq,
                            changes,
                        },
                    );
                    col = col + 1;
                }
                let ghost prevp = self.patterns@;
                self.patterns.push((id, pats));
                proof {
                    assert(self.patterns@.drop_last() =~= prevp);
                    assert(self.patterns@.map_values(|w: (u32, Vec<BytePattern>)| w.0)
                        =~= prevp.map_values(|w: (u32, Vec<BytePattern>)| w.0).push(id));
                    let keys = self.patterns@.map_values(|w: (u32, Vec<BytePattern>)| w.0);
                    assert forall|a: int, b: int|
                        0 <= a < b < keys.len() implies #[trigger] keys[a] < #[trigger] keys[b] by {
                        if b == keys.len() - 1 {
                            let q = choose|q: int|
                                0 <= q < p && ids@[q] == (#[trigger] prevp[a]).0;
                            assert(ids@[q] < ids@[p as int]);
                            assert(keys[a] == prevp[a].0);
                            assert(keys[b] == id);
                        } else {
                            let pk = prevp.map_values(|w: (u32, Vec<BytePattern>)| w.0);
                            assert(pk[a] < pk[b]);
                            assert(keys[a] == pk[a] && keys[b] == pk[b]);
                        }
                    }
                    assert(ids_sorted(keys));
                }
            }
            proof {
                let keys = self.patterns@.map_values(|w: (u32, Vec<BytePattern>)| w.0);
                if count >= 2 {
                    assert(keys =~= entry_keys.push(id));
                } else {
                    assert(keys == entry_keys);
                }
                assert forall|q: int|
                    0 <= q < p + 1 && count_id(messages@, ids@[q]) >= 2 implies holds_id(
                    keys,
                    #[trigger] ids@[q],
                ) by {
                    if q == p {
                        assert(count == count_id(messages@, id));
                        assert(keys[keys.len() - 1] == ids@[p as int]);
                    } else {
                        assert(holds_id(entry_keys, ids@[q]));
                        let k = choose|k: int|
                            0 <= k < entry_keys.len() && entry_keys[k] == ids@[q];
                        assert(keys[k] == ids@[q]);
                    }
                }
            }
            p = p + 1;
        }
        proof {
            assert forall|id: u32| count_id(messages@, id) >= 2 implies holds_id(
                self.patterns@.map_values(|w: (u32, Vec<BytePattern>)| w.0),
                id,
            ) by {
                lemma_count_id_pos(messages@, id);
                let j = choose|j: int| 0 <= j < messages@.len() && messages@[j].id == id;
                assert(holds_id(ids@, id));
                let q = choose|q: int| 0 <= q < ids@.len() && ids@[q] == id;
            }
        }
    }

    /// The per-byte patterns of an id, if it was analysed.
    pub fn get_patterns(&self, id: u32) -> (r: Option<&Vec<BytePattern>>)
        ensures
            r is Some <==> holds_id(
                self.patterns@.map_values(|p: (u32, Vec<BytePattern>)| p.0),
                id,
            ),
            r matches Some(v) ==> exists|k: int|
                0 <= k < self.patterns@.len() && (#[trigger] self.patterns@[k]).0 == id
                    && self.patterns@[k].1 == *v,
    {
        let mut i: usize = 0;
        while i < self.patterns.len()
            invariant
                i <= self.patterns@.len(),
                forall|j: int| 0 <= j < i ==> (#[trigger] self.patterns@[j]).0 != id,
            decreases self.patterns@.len() - i,
        {
            if self.patterns[i].0 == id {
                proof {
                    assert(self.patterns@.map_values(|p: (u32, Vec<BytePattern>)| p.0)[i as int]
                        == id);
                }
                return Some(&self.patterns[i].1);
            }
            i = i + 1;
        }
        proof {
            let keys = self.patterns@.map_values(|p: (u32, Vec<BytePattern>)| p.0);
            assert forall|j: int| 0 <= j < keys.len() implies #[trigger] keys[j] != id by {
                assert(self.patterns@[j].0 != id);
            }
        }
        None
    }

    /// The analysed ids, ascending.
    pub fn analyzed_ids(&self) -> (r: Vec<u32>)
        ensures
            r@ == self.patterns@.map_values(|p: (u32, Vec<BytePattern>)| p.0),
    {
        let mut r: Vec<u32> = Vec::new();
        let mut i: usize = 0;
        while i < self.patterns.len()
            invariant
                i <= self.patterns@.len(),
                r@ =~= self.patterns@.take(i as int).map_values(
                    |p: (u32, Vec<BytePattern>)| p.0,
                ),
            decreases self.patterns@.len() - i,
        {
            r.push(self.patterns[i].0);
            proof {
                assert(r@ =~= self.patterns@.take(i as int + 1).map_values(
                    |p: (u32, Vec<BytePattern>)| p.0,
                ));
            }
            i = i + 1;
        }
        proof {
            assert(self.patterns@.take(self.patterns@.len() as int) =~= self.patterns@);
        }
        r
    }

    /// Forget everything analysed.
    pub fn clear(&mut self)
        ensures
            final(self).patterns@ == Seq::<(u32, Vec<BytePattern>)>::empty(),
    {
        self.patterns = Vec::new();
    }
}

impl Default for PatternAnalyzer {
    /// An analyzer with nothing analysed.
    fn default() -> (r: Self)
        ensures
            r.patterns@ == Seq::<(u32, Vec<BytePattern>)>::empty(),
    {
        PatternAnalyzer::new()
    }
}

/// Window state around the pattern analyzer.
#[derive(Debug, Clone)]
pub struct PatternAnalyzerWindow {
    /// The analyzer itself.
    pub analyzer: PatternAnalyzer,
    /// The id whose patterns are shown, if any.
    pub selected_id: Option<u32>,
}

impl PatternAnalyzerWindow {
    /// A window with nothing analysed and nothing selected.
    pub fn new() -> (r: Self)
        ensures
            r.analyzer.patterns@ == Seq::<(u32, Vec<BytePattern>)>::empty(),
            r.selected_id is None,
    {
        PatternAnalyzerWindow { analyzer: PatternAnalyzer::new(), selected_id: None }
    }

    /// Analyse a capture; see [`PatternAnalyzer::analyze`].
    pub fn analyze(&mut self, messages: &[CanMessage])
        ensures
            final(self).selected_id == old(self).selected_id,
            forall|id: u32|
                count_id(messages@, id) >= 2 ==> holds_id(
                    final(self).analyzer.patterns@.map_values(
                        |p: (u32, Vec<BytePattern>)| p.0,
                    ),
                    id,
                ),
    {
        self.analyzer.analyze(messages);
    }

    /// Forget everything analysed and deselect.
    pub fn clear(&mut self)
        ensures
            final(self).analyzer.patterns@ == Seq::<(u32, Vec<BytePattern>)>::empty(),
            final(self).selected_id is None,
    {
        self.analyzer.clear();
        self.selected_id = None;
    }
}

impl Default for PatternAnalyzerWindow {
    /// A window with nothing analysed and nothing selected.
    fn default() -> (r: Self)
        ensures
            r.analyzer.patterns@ == Seq::<(u32, Vec<BytePattern>)>::empty(),
            r.selected_id is None,
    {
        PatternAnalyzerWindow::new()
    }
}

} // verus!
