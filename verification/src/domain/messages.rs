//! Human-readable descriptions of rules and errors.

use vstd::prelude::*;
use vstd::string::StringExecFns;

use crate::domain::attempt::ActionError;
use crate::domain::paper::{
    BrushRule, Coordinate, FoldAxis, FoldDirection, PaperError, StrokeAxis, MAX_ACTIONS, MAX_BOARD_HEIGHT,
    MAX_BOARD_WIDTH, MAX_FOLD_ACTIONS, MAX_PHYSICAL_CELLS, MAX_STROKE_ACTIONS, MIN_BOARD_HEIGHT, MIN_BOARD_WIDTH,
};
use crate::domain::puzzle::{IdentityErrorReason, IdentityPart, PuzzleError, MAX_ID_BYTES};
use crate::domain::replay::ReplayError;
use crate::text::{decimal, push_decimal};

verus! {

pub open spec fn fold_axis_text(axis: FoldAxis) -> Seq<char> {
    match axis {
        FoldAxis::Vertical => "vertical"@,
        FoldAxis::Horizontal => "horizontal"@,
    }
}

pub open spec fn direction_text(direction: FoldDirection) -> Seq<char> {
    match direction {
        FoldDirection::Left => "left"@,
        FoldDirection::Right => "right"@,
        FoldDirection::Up => "up"@,
        FoldDirection::Down => "down"@,
    }
}

pub open spec fn stroke_axis_text(axis: StrokeAxis) -> Seq<char> {
    match axis {
        StrokeAxis::Horizontal => "horizontal"@,
        StrokeAxis::Vertical => "vertical"@,
    }
}

/// `dot`, or `<length>-cell <axis> line`.
pub open spec fn brush_text(rule: BrushRule) -> Seq<char> {
    match rule {
        BrushRule::Dot => "dot"@,
        BrushRule::Line { axis, length } => decimal(length as nat) + "-cell "@ + stroke_axis_text(axis) + " line"@,
    }
}

/// `(<row>, <column>)`.
pub open spec fn position_text(c: Coordinate) -> Seq<char> {
    "("@ + decimal(c.r() as nat) + ", "@ + decimal(c.c() as nat) + ")"@
}

pub open spec fn paper_error_text(e: PaperError) -> Seq<char> {
    match e {
        PaperError::CellIdOutOfRange { value } => "physical cell ID "@ + decimal(value as nat)
            + " exceeds the limit"@,
        PaperError::RowOutOfRange { value } => "row "@ + decimal(value as nat) + " exceeds the limit"@,
        PaperError::ColumnOutOfRange { value } => "column "@ + decimal(value as nat) + " exceeds the limit"@,
        PaperError::WidthOutOfRange { value } => "paper width "@ + decimal(value as nat) + " must be between "@
            + decimal(MIN_BOARD_WIDTH as nat) + " and "@ + decimal(MAX_BOARD_WIDTH as nat),
        PaperError::HeightOutOfRange { value } => "paper height "@ + decimal(value as nat) + " must be between "@
            + decimal(MIN_BOARD_HEIGHT as nat) + " and "@ + decimal(MAX_BOARD_HEIGHT as nat),
        PaperError::FoldBudgetOutOfRange { value } => "fold budget "@ + decimal(value as nat) + " exceeds "@
            + decimal(MAX_FOLD_ACTIONS as nat),
        PaperError::StrokeBudgetOutOfRange { value } => "stroke budget "@ + decimal(value as nat) + " exceeds "@
            + decimal(MAX_STROKE_ACTIONS as nat),
        PaperError::ActionBudgetOutOfRange { value } => "action budget "@ + decimal(value as nat) + " exceeds "@
            + decimal(MAX_ACTIONS as nat),
        PaperError::CoordinateOutsidePaper { row, column, width, height } => "coordinate ("@ + decimal(
            row as nat,
        ) + ", "@ + decimal(column as nat) + ") is outside a "@ + decimal(width as nat) + " by "@ + decimal(
            height as nat,
        ) + " paper"@,
        PaperError::CellOutsidePaper { cell_id, cell_count } => "physical cell ID "@ + decimal(
            cell_id.value() as nat,
        ) + " is outside a paper with "@ + decimal(cell_count as nat) + " cells"@,
        PaperError::TooManyTargetCells { count } => "target contains "@ + decimal(count as nat)
            + " entries, above the "@ + decimal(MAX_PHYSICAL_CELLS as nat) + "-cell limit"@,
        PaperError::CreaseOutsidePaper { axis, crease, extent } => fold_axis_text(axis) + " crease "@ + decimal(
            crease as nat,
        ) + " is outside the paper extent "@ + decimal(extent as nat),
        PaperError::FoldLeavesPaper { direction, crease, index, extent } => "the "@ + direction_text(direction)
            + " fold at crease "@ + decimal(crease as nat) + " reflects index "@ + decimal(index as nat)
            + " outside extent "@ + decimal(extent as nat),
        PaperError::EmptyMovingSide { direction } => "the "@ + direction_text(direction)
            + " fold has no paper on its moving side"@,
        PaperError::FoldBudgetExhausted { limit } => "the fold budget of "@ + decimal(limit.value() as nat)
            + " is exhausted"@,
        PaperError::StrokeBudgetExhausted { limit } => "the brush-stroke budget of "@ + decimal(
            limit.value() as nat,
        ) + " is exhausted"@,
        PaperError::ActionBudgetExhausted { limit } => "the action budget of "@ + decimal(limit.value() as nat)
            + " is exhausted"@,
        PaperError::EmptyBrushPosition { coordinate } => "cannot stamp empty position "@ + position_text(
            coordinate,
        ),
        PaperError::LineIsTooShort => "a line brush must cover at least two positions"@,
        PaperError::LineIsNotAxisAligned { start, end } => "line endpoints "@ + position_text(start) + " and "@
            + position_text(end) + " are not horizontally or vertically aligned"@,
        PaperError::TargetDimensionsDiffer { paper, target } => "target is "@ + decimal(target.w() as nat)
            + " by "@ + decimal(target.h() as nat) + ", but the paper is "@ + decimal(paper.w() as nat) + " by "@
            + decimal(paper.h() as nat),
        PaperError::NothingToUndo => "there is no paper action to undo"@,
    }
}

pub open spec fn identity_part_text(part: IdentityPart) -> Seq<char> {
    match part {
        IdentityPart::Pack => "pack"@,
        IdentityPart::Puzzle => "puzzle"@,
    }
}

pub open spec fn identity_reason_text(reason: IdentityErrorReason) -> Seq<char> {
    match reason {
        IdentityErrorReason::Empty => "it is empty"@,
        IdentityErrorReason::TooLong => "it exceeds "@ + decimal(MAX_ID_BYTES as nat) + " bytes"@,
        IdentityErrorReason::InvalidCharacter => "use lowercase ASCII letters and digits separated by single hyphens"@,
        IdentityErrorReason::InvalidHyphen => "hyphens cannot begin, end, or repeat in an ID"@,
    }
}

pub open spec fn puzzle_error_text(e: PuzzleError) -> Seq<char> {
    match e {
        PuzzleError::InvalidIdentity { part, reason } => "the "@ + identity_part_text(part) + " ID is invalid: "@
            + identity_reason_text(reason),
        PuzzleError::UnsupportedFormatVersion { found, supported } => "puzzle format version "@ + decimal(
            found as nat,
        ) + " is unsupported; this engine accepts "@ + decimal(supported as nat),
        PuzzleError::Paper(error) => paper_error_text(error),
        PuzzleError::DuplicateTargetCell { cell_id } => "target repeats physical cell "@ + decimal(
            cell_id.value() as nat,
        ),
        PuzzleError::TooManyAllowedFolds { count, limit } => "puzzle declares "@ + decimal(count as nat)
            + " folds, above the "@ + decimal(limit as nat) + "-fold limit"@,
        PuzzleError::DuplicateAllowedFold { fold } => "puzzle repeats the "@ + direction_text(fold.dir())
            + " fold at crease "@ + decimal(fold.cr() as nat),
        PuzzleError::AllowedCreaseOutsidePaper { fold, extent } => "the allowed "@ + direction_text(fold.dir())
            + " fold at crease "@ + decimal(fold.cr() as nat) + " is outside extent "@ + decimal(extent as nat),
        PuzzleError::TooManyBrushRules { count, limit } => "puzzle declares "@ + decimal(count as nat)
            + " brush rules, above the "@ + decimal(limit as nat) + "-rule limit"@,
        PuzzleError::DuplicateBrushRule { rule } => "puzzle repeats the "@ + brush_text(rule) + " brush rule"@,
        PuzzleError::LineLengthOutOfRange { axis, length, extent } => stroke_axis_text(axis) + " line length "@
            + decimal(length as nat) + " must be between 2 and "@ + decimal(extent as nat),
        PuzzleError::FoldRulesWithoutBudget => "puzzle allows folds but has no fold budget"@,
        PuzzleError::FoldBudgetWithoutRules => "puzzle has a fold budget but allows no folds"@,
        PuzzleError::BrushRulesWithoutBudget => "puzzle allows brushes but has no stroke budget"@,
        PuzzleError::StrokeBudgetWithoutRules => "puzzle has a stroke budget but allows no brushes"@,
        PuzzleError::TargetNeedsStroke => "a nonempty target requires at least one brush stroke"@,
        PuzzleError::ParExceedsBudget { par, fold_budget, stroke_budget } => "par "@ + decimal(
            par.fold_part().value() as nat,
        ) + "/"@ + decimal(par.stroke_part().value() as nat) + " exceeds puzzle budgets "@ + decimal(
            fold_budget.value() as nat,
        ) + "/"@ + decimal(stroke_budget.value() as nat),
    }
}

pub open spec fn action_error_text(e: ActionError) -> Seq<char> {
    match e {
        ActionError::FoldNotAllowed { fold } => "the puzzle does not allow the "@ + direction_text(fold.dir())
            + " fold at crease "@ + decimal(fold.cr() as nat),
        ActionError::BrushNotAllowed { rule } => "the puzzle does not allow the "@ + brush_text(rule) + " brush"@,
        ActionError::Paper(error) => paper_error_text(error),
    }
}

pub open spec fn replay_error_text(e: ReplayError) -> Seq<char> {
    match e {
        ReplayError::TooManyActions { count, limit } => "replay has "@ + decimal(count as nat)
            + " actions, above the "@ + decimal(limit as nat) + "-action limit"@,
        ReplayError::IncompatibleEngine { found, supported } => "replay engine compatibility "@ + decimal(
            found as nat,
        ) + " does not match "@ + decimal(supported as nat),
        ReplayError::IncompatiblePuzzleFormat { found, expected } => "replay puzzle format "@ + decimal(
            found as nat,
        ) + " does not match "@ + decimal(expected as nat),
        ReplayError::PuzzleIdentityMismatch => "replay belongs to another puzzle"@,
        ReplayError::PuzzleRevisionMismatch => "replay belongs to another revision of this puzzle"@,
        ReplayError::Action { index, source } => "replay action "@ + decimal(index as nat) + " failed: "@
            + action_error_text(source),
    }
}

impl FoldAxis {
    pub fn name(self) -> (r: &'static str)
        ensures
            r@ == fold_axis_text(self),
    {
        match self {
            FoldAxis::Vertical => "vertical",
            FoldAxis::Horizontal => "horizontal",
        }
    }
}

impl FoldDirection {
    pub fn name(self) -> (r: &'static str)
        ensures
            r@ == direction_text(self),
    {
        match self {
            FoldDirection::Left => "left",
            FoldDirection::Right => "right",
            FoldDirection::Up => "up",
            FoldDirection::Down => "down",
        }
    }
}

impl StrokeAxis {
    pub fn name(self) -> (r: &'static str)
        ensures
            r@ == stroke_axis_text(self),
    {
        match self {
            StrokeAxis::Horizontal => "horizontal",
            StrokeAxis::Vertical => "vertical",
        }
    }
}

impl BrushRule {
    /// The rule as players read it.
    pub fn describe(self) -> (r: String)
        ensures
            r@ == brush_text(self),
    {
        let mut text = String::new();
        push_brush(&mut text, self);
        text
    }
}

fn push_brush(text: &mut String, rule: BrushRule)
    ensures
        final(text)@ == old(text)@ + brush_text(rule),
{
    match rule {
        BrushRule::Dot => text.append("dot"),
        BrushRule::Line { axis, length } => {
            push_decimal(text, length as u64);
            text.append("-cell ");
            text.append(axis.name());
            text.append(" line");
        },
    }
    assert(final(text)@ =~= old(text)@ + brush_text(rule));
}

fn push_position(text: &mut String, c: Coordinate)
    ensures
        final(text)@ == old(text)@ + position_text(c),
{
    text.append("(");
    push_decimal(text, c.row().get() as u64);
    text.append(", ");
    push_decimal(text, c.column().get() as u64);
    text.append(")");
    assert(final(text)@ =~= old(text)@ + position_text(c));
}

/// Appends `prefix`, a number, and `suffix`.
fn push_number(text: &mut String, prefix: &str, n: u64, suffix: &str)
    ensures
        final(text)@ == old(text)@ + prefix@ + decimal(n as nat) + suffix@,
{
    text.append(prefix);
    push_decimal(text, n);
    text.append(suffix);
}

fn push_paper_error(text: &mut String, e: &PaperError)
    ensures
        final(text)@ == old(text)@ + paper_error_text(*e),
{
    let ghost start = text@;
    match e {
        PaperError::CellIdOutOfRange { value } => push_number(
            text,
            "physical cell ID ",
            *value as u64,
            " exceeds the limit",
        ),
        PaperError::RowOutOfRange { value } => push_number(text, "row ", *value as u64, " exceeds the limit"),
        PaperError::ColumnOutOfRange { value } => push_number(text, "column ", *value as u64, " exceeds the limit"),
        PaperError::WidthOutOfRange { value } => {
            push_number(text, "paper width ", *value as u64, " must be between ");
            push_decimal(text, MIN_BOARD_WIDTH as u64);
            text.append(" and ");
            push_decimal(text, MAX_BOARD_WIDTH as u64);
        },
        PaperError::HeightOutOfRange { value } => {
            push_number(text, "paper height ", *value as u64, " must be between ");
            push_decimal(text, MIN_BOARD_HEIGHT as u64);
            text.append(" and ");
            push_decimal(text, MAX_BOARD_HEIGHT as u64);
        },
        PaperError::FoldBudgetOutOfRange { value } => {
            push_number(text, "fold budget ", *value as u64, " exceeds ");
            push_decimal(text, MAX_FOLD_ACTIONS as u64);
        },
        PaperError::StrokeBudgetOutOfRange { value } => {
            push_number(text, "stroke budget ", *value as u64, " exceeds ");
            push_decimal(text, MAX_STROKE_ACTIONS as u64);
        },
        PaperError::ActionBudgetOutOfRange { value } => {
            push_number(text, "action budget ", *value as u64, " exceeds ");
            push_decimal(text, MAX_ACTIONS as u64);
        },
        PaperError::CoordinateOutsidePaper { row, column, width, height } => {
            push_number(text, "coordinate (", *row as u64, ", ");
            push_decimal(text, *column as u64);
            text.append(") is outside a ");
            push_decimal(text, *width as u64);
            text.append(" by ");
            push_decimal(text, *height as u64);
            text.append(" paper");
        },
        PaperError::CellOutsidePaper { cell_id, cell_count } => {
            push_number(text, "physical cell ID ", cell_id.get() as u64, " is outside a paper with ");
            push_decimal(text, *cell_count as u64);
            text.append(" cells");
        },
        PaperError::TooManyTargetCells { count } => {
            push_number(text, "target contains ", *count as u64, " entries, above the ");
            push_decimal(text, MAX_PHYSICAL_CELLS as u64);
            text.append("-cell limit");
        },
        PaperError::CreaseOutsidePaper { axis, crease, extent } => {
            text.append(axis.name());
            push_number(text, " crease ", *crease as u64, " is outside the paper extent ");
            push_decimal(text, *extent as u64);
        },
        PaperError::FoldLeavesPaper { direction, crease, index, extent } => {
            text.append("the ");
            text.append(direction.name());
            push_number(text, " fold at crease ", *crease as u64, " reflects index ");
            push_decimal(text, *index as u64);
            text.append(" outside extent ");
            push_decimal(text, *extent as u64);
        },
        PaperError::EmptyMovingSide { direction } => {
            text.append("the ");
            text.append(direction.name());
            text.append(" fold has no paper on its moving side");
        },
        PaperError::FoldBudgetExhausted { limit } => push_number(
            text,
            "the fold budget of ",
            limit.get() as u64,
            " is exhausted",
        ),
        PaperError::StrokeBudgetExhausted { limit } => push_number(
            text,
            "the brush-stroke budget of ",
            limit.get() as u64,
            " is exhausted",
        ),
        PaperError::ActionBudgetExhausted { limit } => push_number(
            text,
            "the action budget of ",
            limit.get() as u64,
            " is exhausted",
        ),
        PaperError::EmptyBrushPosition { coordinate } => {
            text.append("cannot stamp empty position ");
            push_position(text, *coordinate);
        },
        PaperError::LineIsTooShort => text.append("a line brush must cover at least two positions"),
        PaperError::LineIsNotAxisAligned { start, end } => {
            text.append("line endpoints ");
            push_position(text, *start);
            text.append(" and ");
            push_position(text, *end);
            text.append(" are not horizontally or vertically aligned");
        },
        PaperError::TargetDimensionsDiffer { paper, target } => {
            push_number(text, "target is ", target.width().get() as u64, " by ");
            push_decimal(text, target.height().get() as u64);
            text.append(", but the paper is ");
            push_decimal(text, paper.width().get() as u64);
            text.append(" by ");
            push_decimal(text, paper.height().get() as u64);
        },
        PaperError::NothingToUndo => text.append("there is no paper action to undo"),
    }
    assert(final(text)@ =~= start + paper_error_text(*e));
}

impl PaperError {
    /// The error as a sentence fragment for players and authors.
    pub fn message(&self) -> (r: String)
        ensures
            r@ == paper_error_text(*self),
    {
        let mut text = String::new();
        push_paper_error(&mut text, self);
        text
    }
}

impl IdentityPart {
    pub fn name(self) -> (r: &'static str)
        ensures
            r@ == identity_part_text(self),
    {
        match self {
            IdentityPart::Pack => "pack",
            IdentityPart::Puzzle => "puzzle",
        }
    }
}

impl IdentityErrorReason {
    pub fn message(self) -> (r: String)
        ensures
            r@ == identity_reason_text(self),
    {
        let mut text = String::new();
        match self {
            IdentityErrorReason::Empty => text.append("it is empty"),
            IdentityErrorReason::TooLong => push_number(&mut text, "it exceeds ", MAX_ID_BYTES as u64, " bytes"),
            IdentityErrorReason::InvalidCharacter => text.append(
                "use lowercase ASCII letters and digits separated by single hyphens",
            ),
            IdentityErrorReason::InvalidHyphen => text.append("hyphens cannot begin, end, or repeat in an ID"),
        }
        assert(text@ =~= identity_reason_text(self));
        text
    }
}

fn push_fold(text: &mut String, prefix: &str, direction: FoldDirection, crease: u8)
    ensures
        final(text)@ == old(text)@ + prefix@ + direction_text(direction) + " fold at crease "@ + decimal(
            crease as nat,
        ),
{
    text.append(prefix);
    text.append(direction.name());
    text.append(" fold at crease ");
    push_decimal(text, crease as u64);
}

fn push_puzzle_error(text: &mut String, e: &PuzzleError)
    ensures
        final(text)@ == old(text)@ + puzzle_error_text(*e),
{
    let ghost start = text@;
    match e {
        PuzzleError::InvalidIdentity { part, reason } => {
            text.append("the ");
            text.append(part.name());
            text.append(" ID is invalid: ");
            let reason_text = reason.message();
            text.append(reason_text.as_str());
        },
        PuzzleError::UnsupportedFormatVersion { found, supported } => {
            push_number(text, "puzzle format version ", *found as u64, " is unsupported; this engine accepts ");
            push_decimal(text, *supported as u64);
        },
        PuzzleError::Paper(error) => push_paper_error(text, error),
        PuzzleError::DuplicateTargetCell { cell_id } => {
            text.append("target repeats physical cell ");
            push_decimal(text, cell_id.get() as u64);
        },
        PuzzleError::TooManyAllowedFolds { count, limit } => {
            push_number(text, "puzzle declares ", *count as u64, " folds, above the ");
            push_decimal(text, *limit as u64);
            text.append("-fold limit");
        },
        PuzzleError::DuplicateAllowedFold { fold } => push_fold(
            text,
            "puzzle repeats the ",
            fold.direction(),
            fold.crease(),
        ),
        PuzzleError::AllowedCreaseOutsidePaper { fold, extent } => {
            push_fold(text, "the allowed ", fold.direction(), fold.crease());
            text.append(" is outside extent ");
            push_decimal(text, *extent as u64);
        },
        PuzzleError::TooManyBrushRules { count, limit } => {
            push_number(text, "puzzle declares ", *count as u64, " brush rules, above the ");
            push_decimal(text, *limit as u64);
            text.append("-rule limit");
        },
        PuzzleError::DuplicateBrushRule { rule } => {
            text.append("puzzle repeats the ");
            push_brush(text, *rule);
            text.append(" brush rule");
        },
        PuzzleError::LineLengthOutOfRange { axis, length, extent } => {
            text.append(axis.name());
            push_number(text, " line length ", *length as u64, " must be between 2 and ");
            push_decimal(text, *extent as u64);
        },
        PuzzleError::FoldRulesWithoutBudget => text.append("puzzle allows folds but has no fold budget"),
        PuzzleError::FoldBudgetWithoutRules => text.append("puzzle has a fold budget but allows no folds"),
        PuzzleError::BrushRulesWithoutBudget => text.append("puzzle allows brushes but has no stroke budget"),
        PuzzleError::StrokeBudgetWithoutRules => text.append("puzzle has a stroke budget but allows no brushes"),
        PuzzleError::TargetNeedsStroke => text.append("a nonempty target requires at least one brush stroke"),
        PuzzleError::ParExceedsBudget { par, fold_budget, stroke_budget } => {
            push_number(text, "par ", par.folds().get() as u64, "/");
            push_decimal(text, par.strokes().get() as u64);
            text.append(" exceeds puzzle budgets ");
            push_decimal(text, fold_budget.get() as u64);
            text.append("/");
            push_decimal(text, stroke_budget.get() as u64);
        },
    }
    assert(final(text)@ =~= start + puzzle_error_text(*e));
}

impl PuzzleError {
    pub fn message(&self) -> (r: String)
        ensures
            r@ == puzzle_error_text(*self),
    {
        let mut text = String::new();
        push_puzzle_error(&mut text, self);
        text
    }
}

fn push_action_error(text: &mut String, e: &ActionError)
    ensures
        final(text)@ == old(text)@ + action_error_text(*e),
{
    let ghost start = text@;
    match e {
        ActionError::FoldNotAllowed { fold } => push_fold(
            text,
            "the puzzle does not allow the ",
            fold.direction(),
            fold.crease(),
        ),
        ActionError::BrushNotAllowed { rule } => {
            text.append("the puzzle does not allow the ");
            push_brush(text, *rule);
            text.append(" brush");
        },
        ActionError::Paper(error) => push_paper_error(text, error),
    }
    assert(final(text)@ =~= start + action_error_text(*e));
}

impl ActionError {
    pub fn message(&self) -> (r: String)
        ensures
            r@ == action_error_text(*self),
    {
        let mut text = String::new();
        push_action_error(&mut text, self);
        text
    }
}

impl ReplayError {
    pub fn message(&self) -> (r: String)
        ensures
            r@ == replay_error_text(*self),
    {
        let mut text = String::new();
        match self {
            ReplayError::TooManyActions { count, limit } => {
                push_number(&mut text, "replay has ", *count as u64, " actions, above the ");
                push_decimal(&mut text, *limit as u64);
            text.append("-action limit");
            },
            ReplayError::IncompatibleEngine { found, supported } => {
                push_number(&mut text, "replay engine compatibility ", *found as u64, " does not match ");
                push_decimal(&mut text, *supported as u64);
            },
            ReplayError::IncompatiblePuzzleFormat { found, expected } => {
                push_number(&mut text, "replay puzzle format ", *found as u64, " does not match ");
                push_decimal(&mut text, *expected as u64);
            },
            ReplayError::PuzzleIdentityMismatch => text.append("replay belongs to another puzzle"),
            ReplayError::PuzzleRevisionMismatch => text.append("replay belongs to another revision of this puzzle"),
            ReplayError::Action { index, source } => {
                push_number(&mut text, "replay action ", *index as u64, " failed: ");
                push_action_error(&mut text, source);
            },
        }
        assert(text@ =~= replay_error_text(*self));
        text
    }
}

} // verus!
