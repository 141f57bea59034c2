//! The flat addressing scheme: widgets, pages and the book of pages.
//!
//! A `Page` holds text and button widgets in insertion order and owns the
//! cyclic cursor over its buttons; a `Book` holds pages keyed by page number
//! and forwards navigation commands to the current page.

use vstd::prelude::*;

verus! {

/// A transition callback supplied by the embedding application.
///
/// Activating a button runs its callback on the externally owned context and
/// yields an optional next-page number. Implementations are outside
/// collaborators: each promises of itself whatever `run_post` it chooses
/// (`true` promises nothing), and the engine passes that promise through to
/// its callers, claiming nothing more.
pub trait Transition<Ctx> {
    /// The implementation's own promise about one call of `run`: how the
    /// context before and after the call relates to the returned target.
    spec fn run_post(&self, pre: Ctx, cur: Ctx, r: Option<usize>) -> bool;

    /// Run the callback on the context.
    fn run(&self, ctx: &mut Ctx) -> (r: Option<usize>)
        ensures
            self.run_post(*old(ctx), *final(ctx), r),
    ;
}

/// A static text widget.
pub struct Text {
    pub text: String,
}

/// A selectable button widget: a label, a decoration pair put around the
/// label while the button is selected, the selection flag, and an optional
/// transition callback run on activation.
pub struct Button<J> {
    pub text: String,
    pub tag: (String, String),
    pub tagged: bool,
    pub jump: Option<J>,
}

/// A widget of either kind, stored in one ordered sequence.
pub enum Widget<J> {
    Text(Text),
    Button(Button<J>),
}

/// A widget paired with its insertion sequence number.
pub struct OrdWidget<T> {
    pub number: usize,
    pub widget: T,
}

/// Mathematical model of a button: label, decoration pair, selection flag and
/// the callback value itself.
#[verifier::ext_equal]
pub struct ButtonV<J> {
    pub label: Seq<char>,
    pub tag_open: Seq<char>,
    pub tag_close: Seq<char>,
    pub tagged: bool,
    pub jump: Option<J>,
}

/// Mathematical model of a widget.
#[verifier::ext_equal]
pub enum WidgetV<J> {
    Text(Seq<char>),
    Button(ButtonV<J>),
}

/// Mathematical model of a numbered slot.
#[verifier::ext_equal]
pub struct SlotV<W> {
    pub number: nat,
    pub widget: W,
}

impl View for Text {
    type V = Seq<char>;

    open spec fn view(&self) -> Seq<char> {
        self.text@
    }
}

impl<J> View for Button<J> {
    type V = ButtonV<J>;

    open spec fn view(&self) -> ButtonV<J> {
        ButtonV {
            label: self.text@,
            tag_open: self.tag.0@,
            tag_close: self.tag.1@,
            tagged: self.tagged,
            jump: self.jump,
        }
    }
}

impl<J> View for Widget<J> {
    type V = WidgetV<J>;

    open spec fn view(&self) -> WidgetV<J> {
        match self {
            Widget::Text(t) => WidgetV::Text(t@),
            Widget::Button(b) => WidgetV::Button(b@),
        }
    }
}

impl<T: View> View for OrdWidget<T> {
    type V = SlotV<T::V>;

    open spec fn view(&self) -> SlotV<T::V> {
        SlotV { number: self.number as nat, widget: self.widget@ }
    }
}

/// Whether a widget model is a button.
pub open spec fn is_button_v<J>(w: WidgetV<J>) -> bool {
    match w {
        WidgetV::Text(_) => false,
        WidgetV::Button(_) => true,
    }
}

/// Whether a widget model is a button carrying the selection flag.
pub open spec fn is_tagged_v<J>(w: WidgetV<J>) -> bool {
    match w {
        WidgetV::Text(_) => false,
        WidgetV::Button(b) => b.tagged,
    }
}

/// The line a widget renders to: the label of a text widget; for a button,
/// the label inside the decoration pair when selected, or inside a fixed
/// two-space pad when not.
pub open spec fn line_of<J>(w: WidgetV<J>) -> Seq<char> {
    match w {
        WidgetV::Text(label) => label,
        WidgetV::Button(b) => if b.tagged {
            b.tag_open + " "@ + b.label + " "@ + b.tag_close
        } else {
            "  "@ + b.label + "  "@
        },
    }
}

/// What a sequence of slots renders to: each widget's line followed by a
/// line break, in insertion order.
pub open spec fn render_of<J>(slots: Seq<SlotV<WidgetV<J>>>) -> Seq<char>
    decreases slots.len(),
{
    if slots.len() == 0 {
        Seq::<char>::empty()
    } else {
        render_of(slots.drop_last()) + line_of(slots.last().widget) + "\n"@
    }
}

impl Text {
    /// Render the text widget's line: the label itself.
    pub fn draw(&self) -> (r: String)
        ensures
            r@ == self@,
    {
        self.text.clone()
    }
}

impl<J> Button<J> {
    /// Render the button's line: decorated when selected, padded when not.
    pub fn draw(&self) -> (r: String)
        ensures
            r@ == line_of(WidgetV::Button(self@)),
    {
        if self.tagged {
            let mut s = self.tag.0.clone();
            s.append(" ");
            s.append(self.text.as_str());
            s.append(" ");
            s.append(self.tag.1.as_str());
            s
        } else {
            let mut s = "  ".to_owned();
            s.append(self.text.as_str());
            s.append("  ");
            s
        }
    }
}

impl<J> Widget<J> {
    /// Render the widget's line, of whichever kind it is.
    pub fn draw(&self) -> (r: String)
        ensures
            r@ == line_of(self@),
    {
        match self {
            Widget::Text(t) => t.draw(),
            Widget::Button(b) => b.draw(),
        }
    }

    /// Whether the widget is a button.
    pub fn is_button(&self) -> (r: bool)
        ensures
            r == is_button_v(self@),
    {
        match self {
            Widget::Text(_) => false,
            Widget::Button(_) => true,
        }
    }
}

impl<T: View> OrdWidget<T> {
    /// Wrap a widget with its insertion sequence number.
    pub fn new(number: usize, widget: T) -> (r: Self)
        ensures
            r@ == (SlotV { number: number as nat, widget: widget@ }),
    {
        OrdWidget { number, widget }
    }

    /// The slot's insertion sequence number.
    pub fn number(&self) -> (r: usize)
        ensures
            r as nat == self@.number,
    {
        self.number
    }
}

/// Builder for a text widget.
pub struct TextBuilder {
    pub text: String,
}

impl TextBuilder {
    /// Start a text widget with the given label.
    pub fn new(text: &str) -> (r: Self)
        ensures
            r.text@ == text@,
    {
        TextBuilder { text: text.to_owned() }
    }

    /// Finish the text widget.
    pub fn build(self) -> (r: Text)
        ensures
            r@ == self.text@,
    {
        Text { text: self.text }
    }
}

/// Builder for a button widget. A fresh builder carries the `">"`/`"<"`
/// decoration pair, no selection and no callback.
pub struct ButtonBuilder<J> {
    pub text: String,
    pub tag: (String, String),
    pub tagged: bool,
    pub jump: Option<J>,
}

impl<J> ButtonBuilder<J> {
    /// Start a button with the given label and the default decoration pair.
    pub fn new(text: &str) -> (r: Self)
        ensures
            r.text@ == text@,
            r.tag.0@ == ">"@,
            r.tag.1@ == "<"@,
            r.tagged == false,
            r.jump is None,
    {
        ButtonBuilder {
            text: text.to_owned(),
            tag: (">".to_owned(), "<".to_owned()),
            tagged: false,
            jump: None,
        }
    }

    /// Set the transition callback run on activation.
    pub fn jump(self, jump: J) -> (r: Self)
        ensures
            r.text@ == self.text@,
            r.tag.0@ == self.tag.0@,
            r.tag.1@ == self.tag.1@,
            r.tagged == self.tagged,
            r.jump == Some(jump),
    {
        ButtonBuilder { jump: Some(jump), ..self }
    }

    /// Set the decoration pair put around the label while selected.
    pub fn tag(self, tag: (&str, &str)) -> (r: Self)
        ensures
            r.text@ == self.text@,
            r.tag.0@ == tag.0@,
            r.tag.1@ == tag.1@,
            r.tagged == self.tagged,
            r.jump == self.jump,
    {
        ButtonBuilder { tag: (tag.0.to_owned(), tag.1.to_owned()), ..self }
    }

    /// Set the initial selection flag. A page overrides this flag on
    /// insertion so that exactly one of its buttons is selected.
    pub fn tagged(self, tagged: bool) -> (r: Self)
        ensures
            r.text@ == self.text@,
            r.tag.0@ == self.tag.0@,
            r.tag.1@ == self.tag.1@,
            r.tagged == tagged,
            r.jump == self.jump,
    {
        ButtonBuilder { tagged, ..self }
    }

    /// Finish the button.
    pub fn build(self) -> (r: Button<J>)
        ensures
            r@ == (ButtonV {
                label: self.text@,
                tag_open: self.tag.0@,
                tag_close: self.tag.1@,
                tagged: self.tagged,
                jump: self.jump,
            }),
    {
        Button { text: self.text, tag: self.tag, tagged: self.tagged, jump: self.jump }
    }
}

/// Anything that can be turned into a button, given a transition callback.
pub trait ToButton<J> {
    fn to_button(&self, jump: J) -> Button<J>;
}

/// A numbered screen: widgets in insertion order plus the cursor of
/// selection over its buttons.
pub struct Page<J> {
    pub page_number: usize,
    pub w_number: usize,
    pub index: Option<usize>,
    pub slots: Vec<OrdWidget<Widget<J>>>,
}

/// Mathematical model of a page.
#[verifier::ext_equal]
pub struct PageV<J> {
    pub page_number: nat,
    pub w_number: nat,
    pub index: Option<nat>,
    pub slots: Seq<SlotV<WidgetV<J>>>,
}

/// The slot models of a vector of slots, in order.
pub open spec fn vsl<J>(slots: Seq<OrdWidget<Widget<J>>>) -> Seq<SlotV<WidgetV<J>>> {
    Seq::new(slots.len(), |i: int| slots[i]@)
}

impl<J> View for Page<J> {
    type V = PageV<J>;

    open spec fn view(&self) -> PageV<J> {
        PageV {
            page_number: self.page_number as nat,
            w_number: self.w_number as nat,
            index: match self.index {
                Some(n) => Some(n as nat),
                None => None,
            },
            slots: vsl(self.slots@),
        }
    }
}

/// The widget with its selection flag set as given; a text widget is
/// returned unchanged.
pub open spec fn retag_v<J>(w: WidgetV<J>, tagged: bool) -> WidgetV<J> {
    match w {
        WidgetV::Text(label) => WidgetV::Text(label),
        WidgetV::Button(b) => WidgetV::Button(ButtonV { tagged, ..b }),
    }
}

/// The positions, in order, of the button slots within a slot sequence.
pub open spec fn btns_of<J>(slots: Seq<SlotV<WidgetV<J>>>) -> Seq<int>
    decreases slots.len(),
{
    if slots.len() == 0 {
        Seq::<int>::empty()
    } else if is_button_v(slots.last().widget) {
        btns_of(slots.drop_last()).push(slots.len() - 1)
    } else {
        btns_of(slots.drop_last())
    }
}

/// The index within `btns_of(slots)` at which a button position stands.
pub open spec fn rank_of<J>(slots: Seq<SlotV<WidgetV<J>>>, i: int) -> int {
    choose|k: int| 0 <= k < btns_of(slots).len() && btns_of(slots)[k] == i
}

impl<J> PageV<J> {
    /// Slot numbers grow strictly in insertion order and stay below the
    /// page's insertion counter.
    pub open spec fn numbers_ok(self) -> bool {
        &&& forall|i: int, j: int|
            0 <= i < j < self.slots.len() ==> self.slots[i].number < self.slots[j].number
        &&& forall|i: int| 0 <= i < self.slots.len() ==> (#[trigger] self.slots[i].number) < self.w_number
    }

    /// The cursor is absent exactly when the page has no button; when
    /// present, it carries the sequence number of the one selected button,
    /// and every other button is unselected.
    pub open spec fn selection_ok(self) -> bool {
        match self.index {
            None => forall|i: int| 0 <= i < self.slots.len() ==> !is_button_v(#[trigger] self.slots[i].widget),
            Some(n) => {
                &&& exists|i: int|
                    0 <= i < self.slots.len() && is_button_v(#[trigger] self.slots[i].widget)
                        && self.slots[i].number == n
                &&& forall|i: int|
                    0 <= i < self.slots.len() && is_button_v(#[trigger] self.slots[i].widget)
                        ==> (is_tagged_v(self.slots[i].widget) <==> self.slots[i].number == n)
            },
        }
    }

    /// The page invariant: constructors establish it and every operation
    /// preserves it.
    pub open spec fn wf(self) -> bool {
        self.numbers_ok() && self.selection_ok()
    }

    /// Whether the slot at position `i` is the selected button the cursor
    /// points at.
    pub open spec fn sel_at(self, i: int) -> bool {
        &&& 0 <= i < self.slots.len()
        &&& is_button_v(self.slots[i].widget)
        &&& self.index == Some(self.slots[i].number)
    }

    /// The position of the selected button. Meaningful only when the cursor
    /// is present; under `wf` that position is unique.
    pub open spec fn sel_pos(self) -> int {
        choose|i: int| self.sel_at(i)
    }

    /// The rank of the selected button among the page's buttons.
    pub open spec fn sel_k(self) -> int {
        rank_of(self.slots, self.sel_pos())
    }

    /// The page with the selection moved to the button at position `t`:
    /// that button is selected, every other button deselected, and the
    /// cursor carries `t`'s sequence number.
    pub open spec fn with_sel(self, t: int) -> PageV<J> {
        PageV {
            index: Some(self.slots[t].number),
            slots: Seq::new(
                self.slots.len(),
                |i: int| SlotV {
                    number: self.slots[i].number,
                    widget: retag_v(self.slots[i].widget, i == t),
                },
            ),
            ..self
        }
    }

    /// The callback of the selected button: absent when the page has no
    /// cursor or the selected button carries none.
    pub open spec fn active_jump(self) -> Option<J> {
        if self.index is None {
            None
        } else {
            match self.slots[self.sel_pos()].widget {
                WidgetV::Button(b) => b.jump,
                WidgetV::Text(_) => None,
            }
        }
    }

    /// The page after one cyclic step of the selection towards later
    /// buttons; a page without buttons is unchanged.
    pub open spec fn move_next_v(self) -> PageV<J> {
        let bs = btns_of(self.slots);
        if self.index is None || bs.len() == 0 {
            self
        } else {
            self.with_sel(bs[(self.sel_k() + 1) % (bs.len() as int)])
        }
    }

    /// The page after one cyclic step of the selection towards earlier
    /// buttons; a page without buttons is unchanged.
    pub open spec fn move_prev_v(self) -> PageV<J> {
        let bs = btns_of(self.slots);
        if self.index is None || bs.len() == 0 {
            self
        } else {
            self.with_sel(bs[(self.sel_k() - 1 + bs.len()) % (bs.len() as int)])
        }
    }
}

/// `btns_of` lists exactly the button positions: each entry is a button
/// position, entries grow strictly, and every button position is an entry.
pub proof fn lemma_btns_props<J>(slots: Seq<SlotV<WidgetV<J>>>)
    ensures
        forall|k: int|
            0 <= k < btns_of(slots).len() ==> 0 <= #[trigger] btns_of(slots)[k] < slots.len()
                && is_button_v(slots[btns_of(slots)[k]].widget),
        forall|k1: int, k2: int|
            0 <= k1 < k2 < btns_of(slots).len() ==> btns_of(slots)[k1] < btns_of(slots)[k2],
        forall|i: int|
            0 <= i < slots.len() && is_button_v(#[trigger] slots[i].widget)
                ==> exists|k: int| 0 <= k < btns_of(slots).len() && btns_of(slots)[k] == i,
    decreases slots.len(),
{
    if slots.len() > 0 {
        let pre = slots.drop_last();
        lemma_btns_props(pre);
        assert(forall|i: int| 0 <= i < pre.len() ==> pre[i] == slots[i]);
        let bp = btns_of(pre);
        let bs = btns_of(slots);
        if is_button_v(slots.last().widget) {
            assert(bs == bp.push(slots.len() - 1));
            assert forall|i: int|
                0 <= i < slots.len() && is_button_v(#[trigger] slots[i].widget)
                implies exists|k: int| 0 <= k < bs.len() && bs[k] == i by {
                if i < slots.len() - 1 {
                    let k0 = choose|k: int| 0 <= k < bp.len() && bp[k] == i;
                    assert(bs[k0] == i);
                } else {
                    assert(bs[bs.len() - 1] == i);
                }
            }
        } else {
            assert(bs == bp);
            assert forall|i: int|
                0 <= i < slots.len() && is_button_v(#[trigger] slots[i].widget)
                implies exists|k: int| 0 <= k < bs.len() && bs[k] == i by {
                let k0 = choose|k: int| 0 <= k < bp.len() && bp[k] == i;
                assert(bs[k0] == i);
            }
        }
    }
}

/// A button position has exactly one rank within `btns_of`.
pub proof fn lemma_rank_of<J>(slots: Seq<SlotV<WidgetV<J>>>, i: int)
    requires
        0 <= i < slots.len(),
        is_button_v(slots[i].widget),
    ensures
        0 <= rank_of(slots, i) < btns_of(slots).len(),
        btns_of(slots)[rank_of(slots, i)] == i,
        forall|k: int|
            0 <= k < btns_of(slots).len() && btns_of(slots)[k] == i ==> k == rank_of(slots, i),
{
    lemma_btns_props(slots);
    let r = rank_of(slots, i);
    assert(exists|k: int| 0 <= k < btns_of(slots).len() && btns_of(slots)[k] == i);
    assert forall|k: int|
        0 <= k < btns_of(slots).len() && btns_of(slots)[k] == i implies k == r by {
        if k < r {
            assert(btns_of(slots)[k] < btns_of(slots)[r]);
        } else if r < k {
            assert(btns_of(slots)[r] < btns_of(slots)[k]);
        }
    }
}

/// Two adjacent buttons (no button strictly between them) have adjacent
/// ranks.
pub proof fn lemma_adjacent_ranks<J>(slots: Seq<SlotV<WidgetV<J>>>, a: int, b: int)
    requires
        0 <= a < b < slots.len(),
        is_button_v(slots[a].widget),
        is_button_v(slots[b].widget),
        forall|m: int| a < m < b ==> !is_button_v(#[trigger] slots[m].widget),
    ensures
        rank_of(slots, b) == rank_of(slots, a) + 1,
{
    lemma_btns_props(slots);
    lemma_rank_of(slots, a);
    lemma_rank_of(slots, b);
    let ka = rank_of(slots, a);
    let kb = rank_of(slots, b);
    assert(ka < kb);
    if kb > ka + 1 {
        let mid = btns_of(slots)[ka + 1];
        assert(a < mid < b);
        assert(is_button_v(slots[mid].widget));
    }
}

/// A button with no button after it has the last rank.
pub proof fn lemma_last_rank<J>(slots: Seq<SlotV<WidgetV<J>>>, a: int)
    requires
        0 <= a < slots.len(),
        is_button_v(slots[a].widget),
        forall|m: int| a < m < slots.len() ==> !is_button_v(#[trigger] slots[m].widget),
    ensures
        rank_of(slots, a) == btns_of(slots).len() - 1,
{
    lemma_btns_props(slots);
    lemma_rank_of(slots, a);
    let ka = rank_of(slots, a);
    let n = btns_of(slots).len() as int;
    if ka < n - 1 {
        let after = btns_of(slots)[ka + 1];
        assert(a < after < slots.len());
        assert(is_button_v(slots[after].widget));
    }
}

/// A button with no button before it has rank zero.
pub proof fn lemma_first_rank<J>(slots: Seq<SlotV<WidgetV<J>>>, b: int)
    requires
        0 <= b < slots.len(),
        is_button_v(slots[b].widget),
        forall|m: int| 0 <= m < b ==> !is_button_v(#[trigger] slots[m].widget),
    ensures
        rank_of(slots, b) == 0,
{
    lemma_btns_props(slots);
    lemma_rank_of(slots, b);
    let kb = rank_of(slots, b);
    if kb > 0 {
        let before = btns_of(slots)[kb - 1];
        assert(0 <= before < b);
        assert(is_button_v(slots[before].widget));
    }
}

/// Under the page invariant a present cursor points at exactly one slot.
pub proof fn lemma_sel_unique<J>(v: PageV<J>)
    requires
        v.wf(),
        v.index is Some,
    ensures
        v.sel_at(v.sel_pos()),
        forall|i: int, j: int| v.sel_at(i) && v.sel_at(j) ==> i == j,
{
    let n = v.index->Some_0;
    let w = choose|i: int|
        0 <= i < v.slots.len() && is_button_v(#[trigger] v.slots[i].widget)
            && v.slots[i].number == n;
    assert(v.sel_at(w));
    assert forall|i: int, j: int| v.sel_at(i) && v.sel_at(j) implies i == j by {
        if i < j {
            assert(v.slots[i].number < v.slots[j].number);
        } else if j < i {
            assert(v.slots[j].number < v.slots[i].number);
        }
    }
}

/// Moving the selection to any button keeps the page invariant.
pub proof fn lemma_with_sel_wf<J>(v: PageV<J>, t: int)
    requires
        v.wf(),
        0 <= t < v.slots.len(),
        is_button_v(v.slots[t].widget),
    ensures
        v.with_sel(t).wf(),
{
    let v1 = v.with_sel(t);
    assert(is_button_v(v1.slots[t].widget));
    assert forall|i: int|
        0 <= i < v1.slots.len() && is_button_v(v1.slots[i].widget)
        implies (is_tagged_v(v1.slots[i].widget) <==> v1.slots[i].number == v.slots[t].number) by {
        assert(is_button_v(v.slots[i].widget));
        if i != t && v.slots[i].number == v.slots[t].number {
            if i < t {
                assert(v.slots[i].number < v.slots[t].number);
            } else {
                assert(v.slots[t].number < v.slots[i].number);
            }
        }
    }
}

/// Moving the selection does not change which slots are buttons, so the
/// button positions stay the same.
pub proof fn lemma_btns_same<J>(s1: Seq<SlotV<WidgetV<J>>>, s2: Seq<SlotV<WidgetV<J>>>)
    requires
        s1.len() == s2.len(),
        forall|i: int|
            0 <= i < s1.len() ==> (is_button_v(#[trigger] s1[i].widget) <==> is_button_v(
                #[trigger] s2[i].widget,
            )),
    ensures
        btns_of(s1) == btns_of(s2),
    decreases s1.len(),
{
    if s1.len() > 0 {
        let p1 = s1.drop_last();
        let p2 = s2.drop_last();
        assert(forall|i: int| 0 <= i < p1.len() ==> p1[i] == s1[i] && p2[i] == s2[i]);
        lemma_btns_same(p1, p2);
        assert(is_button_v(s1.last().widget) <==> is_button_v(s2.last().widget));
    }
}

/// Clearing the selection flag of an unselected widget changes nothing.
pub proof fn lemma_retag_untagged<J>(w: WidgetV<J>)
    requires
        !is_tagged_v(w),
    ensures
        retag_v(w, false) == w,
{
    match w {
        WidgetV::Text(_) => {},
        WidgetV::Button(b) => {
            assert((ButtonV { tagged: false, ..b }) =~= b);
        },
    }
}

/// Find the slot carrying the given sequence number, if it is a button.
fn find_selected<J>(slots: &Vec<OrdWidget<Widget<J>>>, number: usize) -> (r: Option<usize>)
    ensures
        match r {
            Some(i) => i < slots@.len() && is_button_v(vsl(slots@)[i as int].widget)
                && vsl(slots@)[i as int].number == number as nat,
            None => forall|m: int|
                0 <= m < slots@.len() ==> !(is_button_v(#[trigger] vsl(slots@)[m].widget)
                    && vsl(slots@)[m].number == number as nat),
        },
{
    let mut i: usize = 0;
    while i < slots.len()
        invariant
            i <= slots@.len(),
            forall|m: int|
                0 <= m < i ==> !(is_button_v(#[trigger] vsl(slots@)[m].widget)
                    && vsl(slots@)[m].number == number as nat),
        decreases slots@.len() - i,
    {
        if slots[i].number == number && slots[i].widget.is_button() {
            return Some(i);
        }
        i = i + 1;
    }
    None
}

/// Find the first button at or after `start`.
fn find_button_from<J>(slots: &Vec<OrdWidget<Widget<J>>>, start: usize) -> (r: Option<usize>)
    ensures
        match r {
            Some(j) => start <= j < slots@.len() && is_button_v(vsl(slots@)[j as int].widget)
                && forall|m: int|
                    start <= m < j ==> !is_button_v(#[trigger] vsl(slots@)[m].widget),
            None => forall|m: int|
                start <= m < slots@.len() ==> !is_button_v(#[trigger] vsl(slots@)[m].widget),
        },
{
    let mut i: usize = start;
    while i < slots.len()
        invariant
            start <= i,
            i <= slots@.len() || i == start,
            forall|m: int| start <= m < i ==> !is_button_v(#[trigger] vsl(slots@)[m].widget),
        decreases slots@.len() - i,
    {
        if slots[i].widget.is_button() {
            return Some(i);
        }
        i = i + 1;
    }
    None
}

/// Find the last button strictly before `end`.
fn rfind_button_below<J>(slots: &Vec<OrdWidget<Widget<J>>>, end: usize) -> (r: Option<usize>)
    requires
        end <= slots@.len(),
    ensures
        match r {
            Some(j) => j < end && is_button_v(vsl(slots@)[j as int].widget) && forall|m: int|
                j < m < end ==> !is_button_v(#[trigger] vsl(slots@)[m].widget),
            None => forall|m: int|
                0 <= m < end ==> !is_button_v(#[trigger] vsl(slots@)[m].widget),
        },
{
    let mut i: usize = end;
    while i > 0
        invariant
            i <= end <= slots@.len(),
            forall|m: int| i <= m < end ==> !is_button_v(#[trigger] vsl(slots@)[m].widget),
        decreases i,
    {
        i = i - 1;
        if slots[i].widget.is_button() {
            return Some(i);
        }
    }
    None
}

/// Set the selection flag of the slot at position `i`.
fn retag_slot<J>(slots: &mut Vec<OrdWidget<Widget<J>>>, i: usize, tagged: bool)
    requires
        i < old(slots)@.len(),
    ensures
        vsl(final(slots)@) =~= vsl(old(slots)@).update(
            i as int,
            SlotV {
                number: vsl(old(slots)@)[i as int].number,
                widget: retag_v(vsl(old(slots)@)[i as int].widget, tagged),
            },
        ),
{
    match &mut slots[i].widget {
        Widget::Button(b) => {
            b.tagged = tagged;
        },
        Widget::Text(_) => {},
    }
    proof {
        assert(vsl(slots@) =~= vsl(old(slots)@).update(
            i as int,
            SlotV {
                number: vsl(old(slots)@)[i as int].number,
                widget: retag_v(vsl(old(slots)@)[i as int].widget, tagged),
            },
        ));
    }
}

/// The position of the button one cyclic step after the button at `cur`.
fn next_button_pos<J>(slots: &Vec<OrdWidget<Widget<J>>>, cur: usize) -> (r: usize)
    requires
        cur < slots@.len(),
        is_button_v(vsl(slots@)[cur as int].widget),
    ensures
        ({
            let bs = btns_of(vsl(slots@));
            let k = rank_of(vsl(slots@), cur as int);
            r < slots@.len() && r as int == bs[(k + 1) % (bs.len() as int)]
        }),
{
    let ghost s = vsl(slots@);
    let ghost k = rank_of(s, cur as int);
    let ghost n = btns_of(s).len() as int;
    proof {
        lemma_btns_props(s);
        lemma_rank_of(s, cur as int);
        assert(cur < slots.len());
    }
    match find_button_from(slots, cur + 1) {
        Some(j) => {
            proof {
                lemma_adjacent_ranks(s, cur as int, j as int);
                lemma_rank_of(s, j as int);
                assert((k + 1) % n == k + 1) by (nonlinear_arith)
                    requires 0 <= k + 1 < n;
                assert(btns_of(s)[(k + 1) % n] == j as int);
            }
            j
        },
        None => {
            match find_button_from(slots, 0) {
                Some(f) => {
                    proof {
                        lemma_last_rank(s, cur as int);
                        lemma_first_rank(s, f as int);
                        lemma_rank_of(s, f as int);
                        assert((k + 1) % n == 0) by (nonlinear_arith)
                            requires k + 1 == n && 0 < n;
                        assert(btns_of(s)[(k + 1) % n] == f as int);
                    }
                    f
                },
                None => {
                    proof {
                        assert(!is_button_v(s[cur as int].widget));
                    }
                    0
                },
            }
        },
    }
}

/// The position of the button one cyclic step before the button at `cur`.
fn prev_button_pos<J>(slots: &Vec<OrdWidget<Widget<J>>>, cur: usize) -> (r: usize)
    requires
        cur < slots@.len(),
        is_button_v(vsl(slots@)[cur as int].widget),
    ensures
        ({
            let bs = btns_of(vsl(slots@));
            let k = rank_of(vsl(slots@), cur as int);
            r < slots@.len() && r as int == bs[(k - 1 + bs.len()) % (bs.len() as int)]
        }),
{
    let ghost s = vsl(slots@);
    let ghost k = rank_of(s, cur as int);
    let ghost n = btns_of(s).len() as int;
    proof {
        lemma_btns_props(s);
        lemma_rank_of(s, cur as int);
    }
    match rfind_button_below(slots, cur) {
        Some(j) => {
            proof {
                lemma_adjacent_ranks(s, j as int, cur as int);
                lemma_rank_of(s, j as int);
                assert((k - 1 + n) % n == k - 1) by (nonlinear_arith)
                    requires 0 <= k - 1 < n;
                assert(btns_of(s)[(k - 1 + n) % n] == j as int);
            }
            j
        },
        None => {
            match rfind_button_below(slots, slots.len()) {
                Some(l) => {
                    proof {
                        lemma_first_rank(s, cur as int);
                        lemma_last_rank(s, l as int);
                        lemma_rank_of(s, l as int);
                        assert((k - 1 + n) % n == n - 1) by (nonlinear_arith)
                            requires k == 0 && 0 < n;
                        assert(btns_of(s)[(k - 1 + n) % n] == l as int);
                    }
                    l
                },
                None => {
                    proof {
                        assert(!is_button_v(s[cur as int].widget));
                    }
                    0
                },
            }
        },
    }
}

impl<J> Page<J> {
    /// Create an empty page with the given page number.
    pub fn new(page_number: usize) -> (r: Self)
        ensures
            r@ == (PageV::<J> {
                page_number: page_number as nat,
                w_number: 0,
                index: None,
                slots: Seq::empty(),
            }),
            r@.wf(),
    {
        let r = Page { page_number, w_number: 0, index: None, slots: Vec::new() };
        proof {
            assert(r@.slots =~= Seq::<SlotV<WidgetV<J>>>::empty());
            assert(r@ =~= (PageV::<J> {
                page_number: page_number as nat,
                w_number: 0,
                index: None,
                slots: Seq::empty(),
            }));
        }
        r
    }

    /// Append a text widget under the next sequence number. The cursor of
    /// selection is untouched.
    pub fn add_text_widget(&mut self, widget: Text)
        requires
            old(self)@.wf(),
            old(self).w_number < usize::MAX,
        ensures
            final(self)@ =~= (PageV {
                w_number: old(self)@.w_number + 1,
                slots: old(self)@.slots.push(
                    SlotV { number: old(self)@.w_number, widget: WidgetV::Text(widget@) },
                ),
                ..old(self)@
            }),
            final(self)@.wf(),
    {
        self.slots.push(OrdWidget { number: self.w_number, widget: Widget::Text(widget) });
        self.w_number = self.w_number + 1;
        proof {
            let v0 = old(self)@;
            let v1 = self@;
            assert(v1.slots =~= v0.slots.push(
                SlotV { number: v0.w_number, widget: WidgetV::Text(widget@) },
            ));
            let n0 = v0.slots.len() as int;
            assert forall|i: int, j: int| 0 <= i < j < v1.slots.len()
                implies v1.slots[i].number < v1.slots[j].number by {
                if j < n0 {
                    assert(v0.slots[i].number < v0.slots[j].number);
                } else {
                    assert(v0.slots[i].number < v0.w_number);
                }
            }
            assert forall|i: int| 0 <= i < v1.slots.len()
                implies (v1.slots[i].number) < v1.w_number by {
                if i < n0 {
                    assert(v0.slots[i].number < v0.w_number);
                }
            }
            match v1.index {
                None => {
                    assert forall|i: int| 0 <= i < v1.slots.len()
                        implies !is_button_v(v1.slots[i].widget) by {
                        if i < n0 {
                            assert(!is_button_v(v0.slots[i].widget));
                        }
                    }
                },
                Some(n) => {
                    let w0 = choose|i: int|
                        0 <= i < v0.slots.len() && is_button_v(v0.slots[i].widget)
                            && v0.slots[i].number == n;
                    assert(is_button_v(v1.slots[w0].widget) && v1.slots[w0].number == n);
                    assert forall|i: int|
                        0 <= i < v1.slots.len() && is_button_v(v1.slots[i].widget)
                        implies (is_tagged_v(v1.slots[i].widget) <==> v1.slots[i].number == n) by {
                        if i < n0 {
                            assert(is_button_v(v0.slots[i].widget));
                        }
                    }
                },
            }
        }
    }

    /// Append a button widget under the next sequence number. The first
    /// button of a page becomes the selected one and the cursor points at
    /// it; later buttons are stored unselected, whatever their builder's
    /// flag said, so that exactly one button stays selected.
    pub fn add_button_widget(&mut self, widget: Button<J>)
        requires
            old(self)@.wf(),
            old(self).w_number < usize::MAX,
        ensures
            final(self)@ =~= (PageV {
                w_number: old(self)@.w_number + 1,
                index: if old(self)@.index is None {
                    Some(old(self)@.w_number)
                } else {
                    old(self)@.index
                },
                slots: old(self)@.slots.push(
                    SlotV {
                        number: old(self)@.w_number,
                        widget: WidgetV::Button(ButtonV {
                            tagged: old(self)@.index is None,
                            ..widget@
                        }),
                    },
                ),
                ..old(self)@
            }),
            final(self)@.wf(),
    {
        let first = self.index.is_none();
        let button = Button { tagged: first, ..widget };
        self.slots.push(OrdWidget { number: self.w_number, widget: Widget::Button(button) });
        if first {
            self.index = Some(self.w_number);
        }
        self.w_number = self.w_number + 1;
        proof {
            let v0 = old(self)@;
            let v1 = self@;
            let nw = SlotV {
                number: v0.w_number,
                widget: WidgetV::Button(ButtonV { tagged: v0.index is None, ..widget@ }),
            };
            assert(v1.slots =~= v0.slots.push(nw));
            let n0 = v0.slots.len() as int;
            assert forall|i: int, j: int| 0 <= i < j < v1.slots.len()
                implies v1.slots[i].number < v1.slots[j].number by {
                if j < n0 {
                    assert(v0.slots[i].number < v0.slots[j].number);
                } else {
                    assert(v0.slots[i].number < v0.w_number);
                }
            }
            assert forall|i: int| 0 <= i < v1.slots.len()
                implies (v1.slots[i].number) < v1.w_number by {
                if i < n0 {
                    assert(v0.slots[i].number < v0.w_number);
                }
            }
            let n = v1.index->Some_0;
            if v0.index is None {
                assert(is_button_v(v1.slots[n0].widget) && v1.slots[n0].number == n);
                assert forall|i: int|
                    0 <= i < v1.slots.len() && is_button_v(v1.slots[i].widget)
                    implies (is_tagged_v(v1.slots[i].widget) <==> v1.slots[i].number == n) by {
                    if i < n0 {
                        assert(!is_button_v(v0.slots[i].widget));
                    }
                }
            } else {
                let w0 = choose|i: int|
                    0 <= i < v0.slots.len() && is_button_v(v0.slots[i].widget)
                        && v0.slots[i].number == n;
                assert(is_button_v(v1.slots[w0].widget) && v1.slots[w0].number == n);
                assert(v0.slots[w0].number < v0.w_number);
                assert forall|i: int|
                    0 <= i < v1.slots.len() && is_button_v(v1.slots[i].widget)
                    implies (is_tagged_v(v1.slots[i].widget) <==> v1.slots[i].number == n) by {
                    if i < n0 {
                        assert(is_button_v(v0.slots[i].widget));
                    } else {
                        assert(v1.slots[i].number == v0.w_number && n < v0.w_number);
                    }
                }
            }
        }
    }

    /// Render the page: every widget's line followed by a line break, in
    /// insertion order.
    pub fn draw(&self) -> (r: String)
        ensures
            r@ == render_of(self@.slots),
    {
        let mut s = String::new();
        let mut i: usize = 0;
        while i < self.slots.len()
            invariant
                i <= self.slots.len(),
                s@ == render_of(self@.slots.take(i as int)),
                self@.slots.len() == self.slots@.len(),
            decreases self.slots.len() - i,
        {
            let line = self.slots[i].widget.draw();
            s.append(line.as_str());
            s.append("\n");
            proof {
                let t = self@.slots.take(i + 1 as int);
                assert(t.drop_last() =~= self@.slots.take(i as int));
                assert(t.last() == self@.slots[i as int]);
            }
            i = i + 1;
        }
        proof {
            assert(self@.slots.take(self.slots@.len() as int) =~= self@.slots);
        }
        s
    }

    /// Move the selection cyclically to the next button in sequence-number
    /// order, wrapping from the last button to the first. A page without
    /// buttons is unchanged.
    pub fn increase_index(&mut self)
        requires
            old(self)@.wf(),
        ensures
            final(self)@ =~= old(self)@.move_next_v(),
            final(self)@.wf(),
    {
        let ghost v0 = self@;
        let idx = match self.index {
            Some(i) => i,
            None => {
                return ;
            },
        };
        proof {
            lemma_sel_unique(v0);
        }
        let cur = match find_selected(&self.slots, idx) {
            Some(c) => c,
            None => {
                proof {
                    assert(v0.sel_at(v0.sel_pos()));
                    assert(false);
                }
                return ;
            },
        };
        proof {
            assert(v0.sel_at(cur as int));
            assert(cur as int == v0.sel_pos());
        }
        let nxt = next_button_pos(&self.slots, cur);
        proof {
            lemma_btns_props(v0.slots);
            lemma_rank_of(v0.slots, cur as int);
            assert(v0.sel_k() == rank_of(v0.slots, cur as int));
        }
        self.apply_selection(cur, nxt);
        proof {
            assert(self@ =~= v0.move_next_v());
        }
    }

    /// Move the selection cyclically to the previous button in
    /// sequence-number order, wrapping from the first button to the last. A
    /// page without buttons is unchanged.
    pub fn decrease_index(&mut self)
        requires
            old(self)@.wf(),
        ensures
            final(self)@ =~= old(self)@.move_prev_v(),
            final(self)@.wf(),
    {
        let ghost v0 = self@;
        let idx = match self.index {
            Some(i) => i,
            None => {
                return ;
            },
        };
        proof {
            lemma_sel_unique(v0);
        }
        let cur = match find_selected(&self.slots, idx) {
            Some(c) => c,
            None => {
                proof {
                    assert(v0.sel_at(v0.sel_pos()));
                    assert(false);
                }
                return ;
            },
        };
        proof {
            assert(v0.sel_at(cur as int));
            assert(cur as int == v0.sel_pos());
        }
        let prv = prev_button_pos(&self.slots, cur);
        proof {
            lemma_btns_props(v0.slots);
            lemma_rank_of(v0.slots, cur as int);
            assert(v0.sel_k() == rank_of(v0.slots, cur as int));
        }
        self.apply_selection(cur, prv);
        proof {
            assert(self@ =~= v0.move_prev_v());
        }
    }

    /// Deselect the button at `cur` and select the one at `target`, moving
    /// the cursor with it.
    fn apply_selection(&mut self, cur: usize, target: usize)
        requires
            old(self)@.wf(),
            old(self)@.sel_at(cur as int),
            target < old(self)@.slots.len(),
            is_button_v(old(self)@.slots[target as int].widget),
        ensures
            final(self)@ =~= old(self)@.with_sel(target as int),
            final(self)@.wf(),
    {
        let ghost v0 = self@;
        let number = self.slots[target].number;
        retag_slot(&mut self.slots, cur, false);
        retag_slot(&mut self.slots, target, true);
        self.index = Some(number);
        proof {
            let v1 = self@;
            let vt = v0.with_sel(target as int);
            lemma_sel_unique(v0);
            assert forall|i: int| 0 <= i < v1.slots.len() implies v1.slots[i] == vt.slots[i] by {
                if i == target {
                } else if i == cur {
                } else {
                    if is_button_v(v0.slots[i].widget) {
                        assert(v0.slots[i].number != v0.slots[cur as int].number) by {
                            if i < cur {
                                assert(v0.slots[i].number < v0.slots[cur as int].number);
                            } else {
                                assert(v0.slots[cur as int].number < v0.slots[i].number);
                            }
                        }
                        assert(!is_tagged_v(v0.slots[i].widget));
                    }
                    lemma_retag_untagged(v0.slots[i].widget);
                }
            }
            assert(v1.slots =~= vt.slots);
            assert(v1 =~= vt);
            lemma_with_sel_wf(v0, target as int);
        }
    }

    /// Activate the selected button: run its transition callback on the
    /// context and hand its result back unchanged, with whatever the
    /// callback promises of itself. A page without buttons, or one whose
    /// selected button carries no callback, reports that nothing happened
    /// and leaves the context alone: the engine itself never touches the
    /// context, only a callback may.
    pub fn enter<Ctx>(&self, ctx: &mut Ctx) -> (r: Option<usize>) where J: Transition<Ctx>
        requires
            self@.wf(),
        ensures
            self@.index is None ==> r is None,
            self@.active_jump() is None ==> r is None && *final(ctx) == *old(ctx),
            self@.active_jump() is Some ==> (self@.active_jump()->Some_0).run_post(
                *old(ctx),
                *final(ctx),
                r,
            ),
    {
        let idx = match self.index {
            Some(i) => i,
            None => {
                return None;
            },
        };
        proof {
            lemma_sel_unique(self@);
        }
        let pos = match find_selected(&self.slots, idx) {
            Some(p) => p,
            None => {
                proof {
                    assert(self@.sel_at(self@.sel_pos()));
                    assert(false);
                }
                return None;
            },
        };
        proof {
            assert(self@.sel_at(pos as int));
            assert(pos as int == self@.sel_pos());
        }
        match &self.slots[pos].widget {
            Widget::Button(b) => match &b.jump {
                Some(j) => {
                    proof {
                        assert(self@.active_jump() == b@.jump);
                        assert(self@.active_jump()->Some_0 == *j);
                    }
                    j.run(ctx)
                },
                None => None,
            },
            Widget::Text(_) => {
                proof {
                    assert(is_button_v(self@.slots[pos as int].widget));
                    assert(false);
                }
                None
            },
        }
    }
}

/// What came of an activation forwarded by the book: the callback asked for
/// no transition, the book moved to the page it named, or it named a page
/// the book does not hold and the book rejected the jump.
#[derive(Clone, Copy, Debug, PartialEq, Eq, Structural)]
pub enum JumpOutcome {
    Stayed,
    Moved(usize),
    Rejected(usize),
}

/// An ordered collection of pages plus the number of the current page.
pub struct Book<J> {
    pub pages: Vec<Page<J>>,
    pub current_page_number: usize,
}

/// Mathematical model of a book.
#[verifier::ext_equal]
pub struct BookV<J> {
    pub pages: Seq<PageV<J>>,
    pub current: nat,
}

impl<J> View for Book<J> {
    type V = BookV<J>;

    open spec fn view(&self) -> BookV<J> {
        BookV {
            pages: Seq::new(self.pages@.len(), |i: int| self.pages@[i]@),
            current: self.current_page_number as nat,
        }
    }
}

impl<J> BookV<J> {
    /// Whether some page carries the given page number.
    pub open spec fn has_page(self, n: nat) -> bool {
        exists|i: int| 0 <= i < self.pages.len() && (#[trigger] self.pages[i]).page_number == n
    }

    /// The position of the page carrying the given page number; under `wf`
    /// that position is unique.
    pub open spec fn page_at(self, n: nat) -> int {
        choose|i: int| 0 <= i < self.pages.len() && (#[trigger] self.pages[i]).page_number == n
    }

    /// The model of the current page.
    pub open spec fn current_page(self) -> PageV<J> {
        self.pages[self.page_at(self.current)]
    }

    /// The book invariant: every page keeps its own invariant, page numbers
    /// are distinct, and the current page number resolves to a page.
    pub open spec fn wf(self) -> bool {
        &&& forall|i: int| 0 <= i < self.pages.len() ==> (#[trigger] self.pages[i]).wf()
        &&& forall|i: int, j: int|
            0 <= i < j < self.pages.len() ==> self.pages[i].page_number != self.pages[j].page_number
        &&& self.has_page(self.current)
    }
}

/// How one activation result moves a book: no target leaves it where it
/// was, a target it holds becomes the current page, and a target it does
/// not hold is rejected and changes nothing.
pub open spec fn jump_step<J>(
    v: BookV<J>,
    target: Option<usize>,
    current2: nat,
    outcome: JumpOutcome,
) -> bool {
    match target {
        None => current2 == v.current && outcome == JumpOutcome::Stayed,
        Some(n) => if v.has_page(n as nat) {
            current2 == n as nat && outcome == JumpOutcome::Moved(n)
        } else {
            current2 == v.current && outcome == JumpOutcome::Rejected(n)
        },
    }
}

/// Under the book invariant a held page number resolves to exactly one
/// position.
pub proof fn lemma_page_at<J>(v: BookV<J>, n: nat)
    requires
        v.wf(),
        v.has_page(n),
    ensures
        0 <= v.page_at(n) < v.pages.len(),
        v.pages[v.page_at(n)].page_number == n,
        forall|i: int|
            0 <= i < v.pages.len() && (#[trigger] v.pages[i]).page_number == n ==> i == v.page_at(
                n,
            ),
{
    let p = v.page_at(n);
    assert forall|i: int|
        0 <= i < v.pages.len() && (#[trigger] v.pages[i]).page_number == n implies i == p by {
        if i < p {
            assert(v.pages[i].page_number != v.pages[p].page_number);
        } else if p < i {
            assert(v.pages[p].page_number != v.pages[i].page_number);
        }
    }
}

impl<J> Book<J> {
    /// Bind pages into a book opened at the given page number.
    pub fn new(current_page_number: usize, pages: Vec<Page<J>>) -> (r: Self)
        ensures
            r@.current == current_page_number as nat,
            r@.pages =~= Seq::new(pages@.len(), |i: int| pages@[i]@),
    {
        Book { pages, current_page_number }
    }

    /// Find the position of the first page carrying the given page number.
    fn page_position(&self, page_number: usize) -> (r: Option<usize>)
        ensures
            match r {
                Some(i) => i < self@.pages.len() && self@.pages[i as int].page_number
                    == page_number as nat,
                None => forall|m: int|
                    0 <= m < self@.pages.len() ==> (#[trigger] self@.pages[m]).page_number
                        != page_number as nat,
            },
    {
        let mut i: usize = 0;
        while i < self.pages.len()
            invariant
                i <= self.pages@.len(),
                self@.pages.len() == self.pages@.len(),
                forall|m: int|
                    0 <= m < i ==> (#[trigger] self@.pages[m]).page_number != page_number as nat,
            decreases self.pages@.len() - i,
        {
            if self.pages[i].page_number == page_number {
                return Some(i);
            }
            i = i + 1;
        }
        None
    }

    /// The page carrying the given page number, if the book holds one.
    pub fn get_page(&self, page_number: usize) -> (r: Option<&Page<J>>)
        ensures
            match r {
                Some(p) => self@.has_page(page_number as nat) && exists|i: int|
                    0 <= i < self@.pages.len() && (#[trigger] self@.pages[i]).page_number
                        == page_number as nat && p@ == self@.pages[i],
                None => !self@.has_page(page_number as nat),
            },
    {
        match self.page_position(page_number) {
            Some(i) => Some(&self.pages[i]),
            None => None,
        }
    }

    /// Render the current page.
    pub fn draw(&self) -> (r: String)
        requires
            self@.wf(),
        ensures
            r@ == render_of(self@.current_page().slots),
    {
        proof {
            lemma_page_at(self@, self@.current);
        }
        match self.page_position(self.current_page_number) {
            Some(pos) => self.pages[pos].draw(),
            None => {
                proof {
                    assert(false);
                }
                String::new()
            },
        }
    }

    /// Move the current page's selection to its next button.
    pub fn increase_index(&mut self)
        requires
            old(self)@.wf(),
        ensures
            final(self)@ =~= (BookV {
                pages: old(self)@.pages.update(
                    old(self)@.page_at(old(self)@.current),
                    old(self)@.current_page().move_next_v(),
                ),
                ..old(self)@
            }),
            final(self)@.wf(),
    {
        let ghost v0 = self@;
        proof {
            lemma_page_at(v0, v0.current);
        }
        match self.page_position(self.current_page_number) {
            Some(pos) => {
                let p = &mut self.pages[pos];
                p.increase_index();
                proof {
                    book_after_page_update(v0, self@, pos as int);
                }
            },
            None => {
                proof {
                    assert(false);
                }
            },
        }
    }

    /// Move the current page's selection to its previous button.
    pub fn decrease_index(&mut self)
        requires
            old(self)@.wf(),
        ensures
            final(self)@ =~= (BookV {
                pages: old(self)@.pages.update(
                    old(self)@.page_at(old(self)@.current),
                    old(self)@.current_page().move_prev_v(),
                ),
                ..old(self)@
            }),
            final(self)@.wf(),
    {
        let ghost v0 = self@;
        proof {
            lemma_page_at(v0, v0.current);
        }
        match self.page_position(self.current_page_number) {
            Some(pos) => {
                let p = &mut self.pages[pos];
                p.decrease_index();
                proof {
                    book_after_page_update(v0, self@, pos as int);
                }
            },
            None => {
                proof {
                    assert(false);
                }
            },
        }
    }

    /// Take an activation result: a named page the book holds becomes the
    /// current page; a named page it does not hold is rejected loudly and
    /// nothing changes; no name changes nothing.
    pub fn apply_jump(&mut self, target: Option<usize>) -> (r: JumpOutcome)
        requires
            old(self)@.wf(),
        ensures
            final(self)@.pages == old(self)@.pages,
            jump_step(old(self)@, target, final(self)@.current, r),
            final(self)@.wf(),
    {
        match target {
            None => JumpOutcome::Stayed,
            Some(n) => match self.page_position(n) {
                Some(pos) => {
                    self.current_page_number = n;
                    proof {
                        assert(self@.pages =~= old(self)@.pages);
                        assert(self@.has_page(n as nat));
                    }
                    JumpOutcome::Moved(n)
                },
                None => {
                    proof {
                        assert(self@.pages =~= old(self)@.pages);
                        assert(!self@.has_page(n as nat));
                    }
                    JumpOutcome::Rejected(n)
                },
            },
        }
    }

    /// Activate the current page's selected button and take the resulting
    /// jump, if any. The pages themselves are untouched; the current page
    /// number moves as `jump_step` says for the target the callback
    /// returned, a target bound by whatever the callback promises of
    /// itself. When the current page has no active callback, nothing
    /// happens at all: the book stays put, the context is left alone, and
    /// the call reports so.
    pub fn enter<Ctx>(&mut self, ctx: &mut Ctx) -> (r: JumpOutcome) where J: Transition<Ctx>
        requires
            old(self)@.wf(),
        ensures
            final(self)@.pages == old(self)@.pages,
            exists|target: Option<usize>|
                jump_step(old(self)@, target, final(self)@.current, r),
            final(self)@.wf(),
            old(self)@.current_page().active_jump() is None ==> r == JumpOutcome::Stayed
                && final(self)@.current == old(self)@.current && *final(ctx) == *old(ctx),
            old(self)@.current_page().active_jump() is Some ==> exists|target: Option<usize>|
                (old(self)@.current_page().active_jump()->Some_0).run_post(
                    *old(ctx),
                    *final(ctx),
                    target,
                ) && jump_step(old(self)@, target, final(self)@.current, r),
    {
        let ghost v0 = self@;
        proof {
            lemma_page_at(v0, v0.current);
        }
        let target = match self.page_position(self.current_page_number) {
            Some(pos) => {
                proof {
                    assert(pos as int == v0.page_at(v0.current));
                    assert(v0.pages[pos as int] == v0.current_page());
                }
                self.pages[pos].enter(ctx)
            },
            None => {
                proof {
                    assert(false);
                }
                None
            },
        };
        let r = self.apply_jump(target);
        proof {
            assert(jump_step(v0, target, self@.current, r));
        }
        r
    }
}

/// A book whose current page alone was replaced by a well-formed page with
/// the same page number still satisfies the book invariant.
proof fn book_after_page_update<J>(v0: BookV<J>, v1: BookV<J>, pos: int)
    requires
        v0.wf(),
        0 <= pos < v0.pages.len(),
        v1.pages.len() == v0.pages.len(),
        v1.current == v0.current,
        v1.pages[pos].wf(),
        v1.pages[pos].page_number == v0.pages[pos].page_number,
        forall|i: int| 0 <= i < v0.pages.len() && i != pos ==> v1.pages[i] == v0.pages[i],
    ensures
        v1.wf(),
{
    assert forall|i: int| 0 <= i < v1.pages.len() implies (#[trigger] v1.pages[i]).wf() by {
        if i != pos {
            assert(v0.pages[i].wf());
        }
    }
    assert forall|i: int, j: int| 0 <= i < j < v1.pages.len()
        implies v1.pages[i].page_number != v1.pages[j].page_number by {
        assert(v0.pages[i].page_number != v0.pages[j].page_number);
    }
    let c = v0.page_at(v0.current);
    lemma_page_at(v0, v0.current);
    assert(v1.pages[c].page_number == v0.current);
}

} // verus!
