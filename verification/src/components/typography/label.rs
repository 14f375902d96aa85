//! The label of a styled text: one widget, whose properties follow the text.

use crate::components::typography::text::{
    apply_paragraph_alignment, apply_styled_content, label_lines, markup, paragraph_placement,
    restyles, Chunk, LabelContent, ParagraphPlacement, ResolvedColor,
};
use crate::geometry::HorizontalAlignment;
use crate::layout::widget::{Margins, NaturalSize, WidgetKind, WidgetLayout, WidgetTree};
use vstd::prelude::*;

verus! {

/// A label and what it shows.
#[derive(Debug)]
pub struct TextLabel {
    pub widget: usize,
    /// The most lines it shows, where there is a limit.
    pub lines: Option<i32>,
    pub shown: LabelContent,
}

/// What a [`TextLabel`] stands for.
#[verifier::ext_equal]
pub struct LabelView {
    pub widget: usize,
    pub lines: Option<i32>,
    pub markup: Seq<char>,
    pub placement: ParagraphPlacement,
}

impl View for TextLabel {
    type V = LabelView;

    open spec fn view(&self) -> LabelView {
        LabelView {
            widget: self.widget,
            lines: self.lines,
            markup: self.shown.markup@,
            placement: self.shown.placement,
        }
    }
}

/// The lines of a label with a limit, as far as the toolkit can count.
pub open spec fn capped_lines(limit: Option<usize>) -> Option<i32> {
    match limit {
        Some(limit) => Some(
            if limit > i32::MAX {
                i32::MAX
            } else {
                limit as i32
            },
        ),
        None => None,
    }
}

/// The kind of widget that a label with a limit of lines is.
pub open spec fn label_kind(limit: Option<usize>) -> WidgetKind {
    WidgetKind::Label { wrap: true, ellipsize: limit is Some }
}

/// A label wraps its lines, and is cut short if and only if their number is
/// limited.
pub proof fn lemma_limited_labels_are_cut_short(limit: Option<usize>)
    ensures
        label_kind(limit) matches WidgetKind::Label { wrap, ellipsize } && wrap && (ellipsize
            <==> capped_lines(limit) is Some),
{
}

impl LabelView {
    /// The label once its state changed.
    pub open spec fn flagged(
        self,
        content: Seq<Chunk>,
        alignment: HorizontalAlignment,
        environment: Option<ResolvedColor>,
        insensitive: bool,
        was_insensitive: bool,
    ) -> LabelView {
        if insensitive != was_insensitive {
            self.restyled(content, alignment, environment, insensitive)
        } else {
            self
        }
    }

    /// The label once it shows `content`.
    pub open spec fn restyled(
        self,
        content: Seq<Chunk>,
        alignment: HorizontalAlignment,
        environment: Option<ResolvedColor>,
        insensitive: bool,
    ) -> LabelView {
        LabelView {
            markup: markup(content, environment, !insensitive),
            placement: paragraph_placement(alignment),
            ..self
        }
    }

    /// The label once its paragraphs are aligned otherwise.
    pub open spec fn realigned(self, alignment: HorizontalAlignment) -> LabelView {
        LabelView { placement: paragraph_placement(alignment), ..self }
    }
}

impl TextLabel {
    /// Adds the label of a text. It wraps its lines, and cuts the last of a
    /// limited number short.
    pub fn render(
        tree: &mut WidgetTree,
        content: &Vec<Chunk>,
        alignment: HorizontalAlignment,
        environment: &Option<ResolvedColor>,
        insensitive: bool,
        limit: Option<usize>,
    ) -> (r: TextLabel)
        requires
            old(tree)@.wf(),
            old(tree)@.widgets.len() < usize::MAX,
        ensures
            final(tree)@.wf(),
            final(tree)@.widgets.len() == old(tree)@.widgets.len() + 1,
            forall|x: usize|
                old(tree)@.has(x) ==> (#[trigger] final(tree)@.at(x)) == old(tree)@.at(x),
            final(tree)@.at(r.widget).kind == label_kind(limit),
            final(tree)@.at(r.widget).parent is None,
            final(tree)@.at(r.widget).children@.len() == 0,
            final(tree)@.at(r.widget).margins == (Margins { start: 0, end: 0, top: 0, bottom: 0 }),
            final(tree)@.at(r.widget).visible,
            final(tree)@.at(r.widget).natural == (NaturalSize { width: 0, height: 0 }),
            final(tree)@.marker(r.widget) == WidgetLayout::empty(),
            !final(tree)@.at(r.widget).allocate_queued,
            !final(tree)@.at(r.widget).resize_queued,
            r@ == (LabelView {
                widget: old(tree)@.widgets.len() as usize,
                lines: capped_lines(limit),
                markup: markup(content@, *environment, !insensitive),
                placement: paragraph_placement(alignment),
            }),
    {
        let shown: LabelContent = apply_styled_content(
            content,
            alignment,
            environment,
            insensitive,
        );
        let widget: usize = tree.add_widget(
            WidgetKind::Label { wrap: true, ellipsize: limit.is_some() },
        );
        let lines: Option<i32> = match limit {
            Some(limit) => Some(label_lines(limit)),
            None => None,
        };
        TextLabel { widget, lines, shown }
    }

    /// The text, or the color that the environment gives it, changed: the same
    /// label shows it.
    pub fn restyle(
        &mut self,
        content: &Vec<Chunk>,
        alignment: HorizontalAlignment,
        environment: &Option<ResolvedColor>,
        insensitive: bool,
    )
        ensures
            final(self)@ == old(self)@.restyled(content@, alignment, *environment, insensitive),
    {
        self.shown = apply_styled_content(content, alignment, environment, insensitive);
    }

    /// The alignment of paragraphs changed: the markup stays.
    pub fn realign(&mut self, alignment: HorizontalAlignment)
        ensures
            final(self)@ == old(self)@.realigned(alignment),
    {
        self.shown.placement = apply_paragraph_alignment(alignment);
    }

    /// The state of the label changed. Tells whether it was styled anew: only
    /// where it became disabled, or is no longer.
    pub fn state_flags_changed(
        &mut self,
        content: &Vec<Chunk>,
        alignment: HorizontalAlignment,
        environment: &Option<ResolvedColor>,
        insensitive: bool,
        was_insensitive: bool,
    ) -> (r: bool)
        ensures
            r == (insensitive != was_insensitive),
            final(self)@ == old(self)@.flagged(
                content@,
                alignment,
                *environment,
                insensitive,
                was_insensitive,
            ),
    {
        let anew: bool = restyles(insensitive, was_insensitive);
        if anew {
            self.restyle(content, alignment, environment, insensitive);
        }
        anew
    }
}

/// What can happen to a label once it is there.
pub enum LabelEvent {
    Restyle {
        content: Seq<Chunk>,
        alignment: HorizontalAlignment,
        environment: Option<ResolvedColor>,
        insensitive: bool,
    },
    Realign { alignment: HorizontalAlignment },
}

/// A label after one event.
pub open spec fn label_step(label: LabelView, event: LabelEvent) -> LabelView {
    match event {
        LabelEvent::Restyle { content, alignment, environment, insensitive } => label.restyled(
            content,
            alignment,
            environment,
            insensitive,
        ),
        LabelEvent::Realign { alignment } => label.realigned(alignment),
    }
}

/// A label after a sequence of events.
pub open spec fn label_after(label: LabelView, events: Seq<LabelEvent>) -> LabelView
    decreases events.len(),
{
    if events.len() == 0 {
        label
    } else {
        label_step(label_after(label, events.drop_last()), events.last())
    }
}

/// The text that the last of `events` with one gave a label, as markup; the
/// label's own where none did.
pub open spec fn last_markup(label: LabelView, events: Seq<LabelEvent>) -> Seq<char>
    decreases events.len(),
{
    if events.len() == 0 {
        label.markup
    } else {
        match events.last() {
            LabelEvent::Restyle { content, environment, insensitive, .. } => markup(
                content,
                environment,
                !insensitive,
            ),
            LabelEvent::Realign { .. } => last_markup(label, events.drop_last()),
        }
    }
}

/// Whatever happens to a text, it is shown by the widget that was made for it,
/// with the same limit of lines, and that widget shows the text that came last.
pub proof fn lemma_updates_keep_the_label(label: LabelView, events: Seq<LabelEvent>)
    ensures
        label_after(label, events).widget == label.widget,
        label_after(label, events).lines == label.lines,
        label_after(label, events).markup == last_markup(label, events),
    decreases events.len(),
{
    if events.len() > 0 {
        lemma_updates_keep_the_label(label, events.drop_last());
    }
}

/// A label shows as many lines as its limit, as far as the toolkit can count,
/// and any number where it has none.
pub proof fn lemma_lines_are_the_limit(limit: usize)
    ensures
        capped_lines(None) is None,
        limit <= i32::MAX ==> capped_lines(Some(limit)) == Some(limit as i32),
        limit > i32::MAX ==> capped_lines(Some(limit)) == Some(i32::MAX),
{
}

/// The alignment that the last of `events` gave a label, where any did.
pub open spec fn last_alignment(events: Seq<LabelEvent>) -> Option<HorizontalAlignment> {
    if events.len() == 0 {
        None
    } else {
        match events.last() {
            LabelEvent::Restyle { alignment, .. } => Some(alignment),
            LabelEvent::Realign { alignment } => Some(alignment),
        }
    }
}

/// A label places its text by the alignment that came last, whatever it came
/// with, and as it did before where none came.
pub proof fn lemma_last_alignment_counts(label: LabelView, events: Seq<LabelEvent>)
    ensures
        match last_alignment(events) {
            Some(HorizontalAlignment::Leading) => label_after(label, events).placement.justify
                is Left,
            Some(HorizontalAlignment::Center) => label_after(label, events).placement.justify
                is Center,
            Some(HorizontalAlignment::Trailing) => label_after(label, events).placement.justify
                is Right,
            None => label_after(label, events).placement == label.placement,
        },
{
}

/// A label shows its text as its state calls for: one that did so before a change
/// of its state does so after it, and is left alone where that change has no
/// part in its style.
pub proof fn lemma_label_follows_its_state(
    label: LabelView,
    content: Seq<Chunk>,
    alignment: HorizontalAlignment,
    environment: Option<ResolvedColor>,
    insensitive: bool,
    was_insensitive: bool,
)
    requires
        label.markup == markup(content, environment, !was_insensitive),
    ensures
        label.flagged(content, alignment, environment, insensitive, was_insensitive).markup
            == markup(content, environment, !insensitive),
        insensitive == was_insensitive ==> label.flagged(
            content,
            alignment,
            environment,
            insensitive,
            was_insensitive,
        ) == label,
        label.flagged(content, alignment, environment, insensitive, was_insensitive).widget
            == label.widget,
        label.flagged(content, alignment, environment, insensitive, was_insensitive).lines
            == label.lines,
{
}

} // verus!
