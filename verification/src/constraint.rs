use vstd::prelude::*;

use crate::expr::{pairwise_distinct, sum_of};
use vstd::string::StrSliceExecFns;

use crate::sudoku::{
    cell_in_bounds, cell_val, cell_vals, full_asg, holds_from, lemma_extends_trans, log_wf,
    AssertionList, Cell, SudokuContext,
};

pub mod anti_knight;
pub mod arrow;
pub mod diagonal;
pub mod digit_definition;
pub mod entropic_line;
pub mod equal_sum;
pub mod german_whisper;
pub mod given_digit;
pub mod killer_cage;
pub mod kropki;
pub mod latin_square;
pub mod little_killer;
pub mod palindrome;
pub mod parity;
pub mod renban;
pub mod standard_boxes;
pub mod thermo;
pub mod x_sum;

pub use anti_knight::AntiKnightConstraint;
pub use arrow::ArrowConstraint;
pub use diagonal::DiagonalConstraint;
pub use digit_definition::DigitDefinitionConstraint;
pub use entropic_line::EntropicLineConstraint;
pub use equal_sum::EqualSumConstraint;
pub use german_whisper::GermanWhisperConstraint;
pub use given_digit::GivenDigitConstraint;
pub use killer_cage::KillerCageConstraint;
pub use kropki::{
    BlackKropkiConstraint, NegativeBlackKropkiConstraint, NegativeWhiteKropkiConstraint,
    WhiteKropkiConstraint,
};
pub use latin_square::LatinSquareConstraint;
pub use little_killer::LittleKillerConstraint;
pub use palindrome::PalindromeConstraint;
pub use parity::ParityConstraint;
pub use renban::RenbanConstraint;
pub use standard_boxes::StandardBoxesConstraint;
pub use thermo::ThermoConstraint;
pub use x_sum::XSumConstraint;

verus! {

/// The closed set of rule kinds a puzzle can contain: the mandatory
/// grid-structure rules, the given digits, and every user-configurable
/// rule type of the catalog.
pub enum Rule {
    DigitDefinition(DigitDefinitionConstraint),
    LatinSquare(LatinSquareConstraint),
    StandardBoxes(StandardBoxesConstraint),
    GivenDigit(GivenDigitConstraint),
    KillerCage(KillerCageConstraint),
    LittleKiller(LittleKillerConstraint),
    Arrow(ArrowConstraint),
    Thermo(ThermoConstraint),
    Palindrome(PalindromeConstraint),
    GermanWhisper(GermanWhisperConstraint),
    Renban(RenbanConstraint),
    AntiKnight(AntiKnightConstraint),
    Diagonal(DiagonalConstraint),
    Parity(ParityConstraint),
    EntropicLine(EntropicLineConstraint),
    XSum(XSumConstraint),
    EqualSum(EqualSumConstraint),
    WhiteKropki(WhiteKropkiConstraint),
    BlackKropki(BlackKropkiConstraint),
    NegativeWhiteKropki(NegativeWhiteKropkiConstraint),
    NegativeBlackKropki(NegativeBlackKropkiConstraint),
}

/// Every listed cell lies inside the grid.
pub open spec fn cells_in_bounds(cs: Seq<Cell>) -> bool {
    forall|k: int| 0 <= k < cs.len() ==> cell_in_bounds(#[trigger] cs[k])
}

/// The cells of row `r`, left to right.
pub open spec fn row_cells(r: int) -> Seq<Cell> {
    Seq::new(9, |c: int| Cell { row: r as usize, col: c as usize })
}

/// The cells of column `c`, top to bottom.
pub open spec fn col_cells(c: int) -> Seq<Cell> {
    Seq::new(9, |r: int| Cell { row: r as usize, col: c as usize })
}

/// The cells of the 3-by-3 box at box coordinates (`bx`, `by`), row-major.
pub open spec fn box_cells(bx: int, by: int) -> Seq<Cell> {
    Seq::new(9, |t: int| Cell { row: (3 * bx + t / 3) as usize, col: (3 * by + t % 3) as usize })
}

/// The capability every rule type implements: compile the rule's meaning
/// into assertions against a session.
///
/// The contract is the same for every rule: `apply` may only grow the
/// session, and the assertions it registers hold under a full cell
/// assignment exactly when the rule's mathematical meaning `sem` does.
pub trait Constraint: Sized {
    /// Structural conditions under which the rule can compile: its cells
    /// lie in the grid and whatever its own encoding needs of its state.
    spec fn rule_wf(&self) -> bool;

    /// Conditions on the sibling rule list; only rules that inspect their
    /// siblings ask for more than `true`.
    spec fn siblings_wf(&self, rules: Seq<Rule>) -> bool;

    /// The rule's meaning: the constraint it places on a full assignment,
    /// given the sibling rule list.
    spec fn sem(&self, rules: Seq<Rule>, asg: Seq<int>) -> bool;

    /// Pushes assertions that hold, together, exactly when `sem` holds.
    fn apply(&self, solver: &mut AssertionList, context: &mut SudokuContext)
        requires
            old(context).wf(),
            log_wf(old(context), old(solver)@),
            self.rule_wf(),
            self.siblings_wf(old(context).rules()),
        ensures
            final(context).wf(),
            final(context).extends(old(context)),
            log_wf(final(context), final(solver)@),
            final(solver)@.len() >= old(solver)@.len(),
            forall|k: int| 0 <= k < old(solver)@.len() ==> final(solver)@[k] == old(solver)@[k],
            forall|asg: Seq<int>|
                full_asg(asg) ==> (holds_from(
                    final(context),
                    final(solver)@,
                    old(solver)@.len() as int,
                    asg,
                ) <==> self.sem(old(context).rules(), asg)),
    ;
}

/// Deep value duplication: each solve attempt compiles a frozen snapshot
/// of the rule list, so a rule must produce an independent copy whose
/// state the copy's own mutations cannot share with the original.
pub trait DynClone: Sized {
    /// The copy carries exactly the same state as the original.
    spec fn cloned_from(&self, r: &Self) -> bool;

    fn dyn_clone(&self) -> (r: Self)
        ensures
            self.cloned_from(&r),
    ;
}

/// The richer capability of user-configurable rules: validity checking,
/// the claimed-cell list and its cap.
pub trait ConfigurableConstraint: Constraint + DynClone {
    /// The rule's current selection and inputs are well formed enough to
    /// be solved.
    spec fn spec_valid(&self) -> bool;

    /// The claimed cells, when the rule has a cell selection.
    spec fn spec_cells(&self) -> Option<Seq<Cell>>;

    /// Upper bound on the selection size.
    spec fn spec_max_cells(&self) -> usize;

    fn is_valid(&self) -> (r: bool)
        ensures
            r == self.spec_valid(),
    ;

    fn get_highlighted_cells(&self) -> (r: Option<&Vec<Cell>>)
        ensures
            match r {
                Option::Some(cs) => self.spec_cells() == Option::Some(cs@),
                Option::None => self.spec_cells() is None,
            },
    ;

    fn push_highlighted_cell(&mut self, c: Cell)
        requires
            old(self).spec_cells() is Some,
        ensures
            final(self).spec_cells() == match old(self).spec_cells() {
                Option::Some(cs) => Option::Some(cs.push(c)),
                Option::None => old(self).spec_cells(),
            },
    ;

    fn get_max_highlighted_cells(&self) -> (r: usize)
        ensures
            r == self.spec_max_cells(),
    ;

    /// The fixed display name under which the registry lists this rule
    /// kind.
    spec fn spec_name(&self) -> Seq<char>;

    fn name(&self) -> (r: &'static str)
        ensures
            r@ == self.spec_name(),
    ;
}

/// Copies a claimed-cell list element by element.
pub fn clone_cells(cs: &Vec<Cell>) -> (r: Vec<Cell>)
    ensures
        r@ == cs@,
{
    let mut r: Vec<Cell> = Vec::new();
    let n = cs.len();
    let mut i: usize = 0;
    while i < n
        invariant
            n == cs@.len(),
            i <= n,
            r@ == cs@.take(i as int),
        decreases n - i,
    {
        r.push(cs[i]);
        proof {
            assert(r@ =~= cs@.take(i + 1));
        }
        i += 1;
    }
    proof {
        assert(cs@.take(n as int) =~= cs@);
    }
    r
}

impl Constraint for Rule {
    open spec fn rule_wf(&self) -> bool {
        match self {
            Rule::DigitDefinition(c) => c.rule_wf(),
            Rule::LatinSquare(c) => c.rule_wf(),
            Rule::StandardBoxes(c) => c.rule_wf(),
            Rule::GivenDigit(c) => c.rule_wf(),
            Rule::KillerCage(c) => c.rule_wf(),
            Rule::LittleKiller(c) => c.rule_wf(),
            Rule::Arrow(c) => c.rule_wf(),
            Rule::Thermo(c) => c.rule_wf(),
            Rule::Palindrome(c) => c.rule_wf(),
            Rule::GermanWhisper(c) => c.rule_wf(),
            Rule::Renban(c) => c.rule_wf(),
            Rule::AntiKnight(c) => c.rule_wf(),
            Rule::Diagonal(c) => c.rule_wf(),
            Rule::Parity(c) => c.rule_wf(),
            Rule::EntropicLine(c) => c.rule_wf(),
            Rule::XSum(c) => c.rule_wf(),
            Rule::EqualSum(c) => c.rule_wf(),
            Rule::WhiteKropki(c) => c.rule_wf(),
            Rule::BlackKropki(c) => c.rule_wf(),
            Rule::NegativeWhiteKropki(c) => c.rule_wf(),
            Rule::NegativeBlackKropki(c) => c.rule_wf(),
        }
    }

    open spec fn siblings_wf(&self, rules: Seq<Rule>) -> bool {
        match self {
            Rule::DigitDefinition(c) => c.siblings_wf(rules),
            Rule::LatinSquare(c) => c.siblings_wf(rules),
            Rule::StandardBoxes(c) => c.siblings_wf(rules),
            Rule::GivenDigit(c) => c.siblings_wf(rules),
            Rule::KillerCage(c) => c.siblings_wf(rules),
            Rule::LittleKiller(c) => c.siblings_wf(rules),
            Rule::Arrow(c) => c.siblings_wf(rules),
            Rule::Thermo(c) => c.siblings_wf(rules),
            Rule::Palindrome(c) => c.siblings_wf(rules),
            Rule::GermanWhisper(c) => c.siblings_wf(rules),
            Rule::Renban(c) => c.siblings_wf(rules),
            Rule::AntiKnight(c) => c.siblings_wf(rules),
            Rule::Diagonal(c) => c.siblings_wf(rules),
            Rule::Parity(c) => c.siblings_wf(rules),
            Rule::EntropicLine(c) => c.siblings_wf(rules),
            Rule::XSum(c) => c.siblings_wf(rules),
            Rule::EqualSum(c) => c.siblings_wf(rules),
            Rule::WhiteKropki(c) => c.siblings_wf(rules),
            Rule::BlackKropki(c) => c.siblings_wf(rules),
            Rule::NegativeWhiteKropki(c) => c.siblings_wf(rules),
            Rule::NegativeBlackKropki(c) => c.siblings_wf(rules),
        }
    }

    open spec fn sem(&self, rules: Seq<Rule>, asg: Seq<int>) -> bool {
        match self {
            Rule::DigitDefinition(c) => c.sem(rules, asg),
            Rule::LatinSquare(c) => c.sem(rules, asg),
            Rule::StandardBoxes(c) => c.sem(rules, asg),
            Rule::GivenDigit(c) => c.sem(rules, asg),
            Rule::KillerCage(c) => c.sem(rules, asg),
            Rule::LittleKiller(c) => c.sem(rules, asg),
            Rule::Arrow(c) => c.sem(rules, asg),
            Rule::Thermo(c) => c.sem(rules, asg),
            Rule::Palindrome(c) => c.sem(rules, asg),
            Rule::GermanWhisper(c) => c.sem(rules, asg),
            Rule::Renban(c) => c.sem(rules, asg),
            Rule::AntiKnight(c) => c.sem(rules, asg),
            Rule::Diagonal(c) => c.sem(rules, asg),
            Rule::Parity(c) => c.sem(rules, asg),
            Rule::EntropicLine(c) => c.sem(rules, asg),
            Rule::XSum(c) => c.sem(rules, asg),
            Rule::EqualSum(c) => c.sem(rules, asg),
            Rule::WhiteKropki(c) => c.sem(rules, asg),
            Rule::BlackKropki(c) => c.sem(rules, asg),
            Rule::NegativeWhiteKropki(c) => c.sem(rules, asg),
            Rule::NegativeBlackKropki(c) => c.sem(rules, asg),
        }
    }

    fn apply(&self, solver: &mut AssertionList, context: &mut SudokuContext) {
        match self {
            Rule::DigitDefinition(c) => c.apply(solver, context),
            Rule::LatinSquare(c) => c.apply(solver, context),
            Rule::StandardBoxes(c) => c.apply(solver, context),
            Rule::GivenDigit(c) => c.apply(solver, context),
            Rule::KillerCage(c) => c.apply(solver, context),
            Rule::LittleKiller(c) => c.apply(solver, context),
            Rule::Arrow(c) => c.apply(solver, context),
            Rule::Thermo(c) => c.apply(solver, context),
            Rule::Palindrome(c) => c.apply(solver, context),
            Rule::GermanWhisper(c) => c.apply(solver, context),
            Rule::Renban(c) => c.apply(solver, context),
            Rule::AntiKnight(c) => c.apply(solver, context),
            Rule::Diagonal(c) => c.apply(solver, context),
            Rule::Parity(c) => c.apply(solver, context),
            Rule::EntropicLine(c) => c.apply(solver, context),
            Rule::XSum(c) => c.apply(solver, context),
            Rule::EqualSum(c) => c.apply(solver, context),
            Rule::WhiteKropki(c) => c.apply(solver, context),
            Rule::BlackKropki(c) => c.apply(solver, context),
            Rule::NegativeWhiteKropki(c) => c.apply(solver, context),
            Rule::NegativeBlackKropki(c) => c.apply(solver, context),
        }
    }
}

impl DynClone for Rule {
    open spec fn cloned_from(&self, r: &Self) -> bool {
        match (self, r) {
            (Rule::DigitDefinition(_), Rule::DigitDefinition(_)) => true,
            (Rule::LatinSquare(_), Rule::LatinSquare(_)) => true,
            (Rule::StandardBoxes(_), Rule::StandardBoxes(_)) => true,
            (Rule::GivenDigit(a), Rule::GivenDigit(b)) => a == b,
            (Rule::KillerCage(a), Rule::KillerCage(b)) => a.cloned_from(b),
            (Rule::LittleKiller(a), Rule::LittleKiller(b)) => a.cloned_from(b),
            (Rule::Arrow(a), Rule::Arrow(b)) => a.cloned_from(b),
            (Rule::Thermo(a), Rule::Thermo(b)) => a.cloned_from(b),
            (Rule::Palindrome(a), Rule::Palindrome(b)) => a.cloned_from(b),
            (Rule::GermanWhisper(a), Rule::GermanWhisper(b)) => a.cloned_from(b),
            (Rule::Renban(a), Rule::Renban(b)) => a.cloned_from(b),
            (Rule::AntiKnight(a), Rule::AntiKnight(b)) => a.cloned_from(b),
            (Rule::Diagonal(a), Rule::Diagonal(b)) => a.cloned_from(b),
            (Rule::Parity(a), Rule::Parity(b)) => a.cloned_from(b),
            (Rule::EntropicLine(a), Rule::EntropicLine(b)) => a.cloned_from(b),
            (Rule::XSum(a), Rule::XSum(b)) => a.cloned_from(b),
            (Rule::EqualSum(a), Rule::EqualSum(b)) => a.cloned_from(b),
            (Rule::WhiteKropki(a), Rule::WhiteKropki(b)) => a.cloned_from(b),
            (Rule::BlackKropki(a), Rule::BlackKropki(b)) => a.cloned_from(b),
            (Rule::NegativeWhiteKropki(a), Rule::NegativeWhiteKropki(b)) => a.cloned_from(b),
            (Rule::NegativeBlackKropki(a), Rule::NegativeBlackKropki(b)) => a.cloned_from(b),
            _ => false,
        }
    }

    fn dyn_clone(&self) -> (r: Self) {
        match self {
            Rule::DigitDefinition(_) => Rule::DigitDefinition(DigitDefinitionConstraint),
            Rule::LatinSquare(_) => Rule::LatinSquare(LatinSquareConstraint),
            Rule::StandardBoxes(_) => Rule::StandardBoxes(StandardBoxesConstraint),
            Rule::GivenDigit(c) => Rule::GivenDigit(
                GivenDigitConstraint { row: c.row, col: c.col, value: c.value },
            ),
            Rule::KillerCage(c) => Rule::KillerCage(c.dyn_clone()),
            Rule::LittleKiller(c) => Rule::LittleKiller(c.dyn_clone()),
            Rule::Arrow(c) => Rule::Arrow(c.dyn_clone()),
            Rule::Thermo(c) => Rule::Thermo(c.dyn_clone()),
            Rule::Palindrome(c) => Rule::Palindrome(c.dyn_clone()),
            Rule::GermanWhisper(c) => Rule::GermanWhisper(c.dyn_clone()),
            Rule::Renban(c) => Rule::Renban(c.dyn_clone()),
            Rule::AntiKnight(c) => Rule::AntiKnight(c.dyn_clone()),
            Rule::Diagonal(c) => Rule::Diagonal(c.dyn_clone()),
            Rule::Parity(c) => Rule::Parity(c.dyn_clone()),
            Rule::EntropicLine(c) => Rule::EntropicLine(c.dyn_clone()),
            Rule::XSum(c) => Rule::XSum(c.dyn_clone()),
            Rule::EqualSum(c) => Rule::EqualSum(c.dyn_clone()),
            Rule::WhiteKropki(c) => Rule::WhiteKropki(c.dyn_clone()),
            Rule::BlackKropki(c) => Rule::BlackKropki(c.dyn_clone()),
            Rule::NegativeWhiteKropki(c) => Rule::NegativeWhiteKropki(c.dyn_clone()),
            Rule::NegativeBlackKropki(c) => Rule::NegativeBlackKropki(c.dyn_clone()),
        }
    }
}

impl ConfigurableConstraint for Rule {
    open spec fn spec_valid(&self) -> bool {
        match self {
            Rule::DigitDefinition(_) => true,
            Rule::LatinSquare(_) => true,
            Rule::StandardBoxes(_) => true,
            Rule::GivenDigit(_) => true,
            Rule::KillerCage(c) => c.spec_valid(),
            Rule::LittleKiller(c) => c.spec_valid(),
            Rule::Arrow(c) => c.spec_valid(),
            Rule::Thermo(c) => c.spec_valid(),
            Rule::Palindrome(c) => c.spec_valid(),
            Rule::GermanWhisper(c) => c.spec_valid(),
            Rule::Renban(c) => c.spec_valid(),
            Rule::AntiKnight(c) => c.spec_valid(),
            Rule::Diagonal(c) => c.spec_valid(),
            Rule::Parity(c) => c.spec_valid(),
            Rule::EntropicLine(c) => c.spec_valid(),
            Rule::XSum(c) => c.spec_valid(),
            Rule::EqualSum(c) => c.spec_valid(),
            Rule::WhiteKropki(c) => c.spec_valid(),
            Rule::BlackKropki(c) => c.spec_valid(),
            Rule::NegativeWhiteKropki(c) => c.spec_valid(),
            Rule::NegativeBlackKropki(c) => c.spec_valid(),
        }
    }

    open spec fn spec_cells(&self) -> Option<Seq<Cell>> {
        match self {
            Rule::DigitDefinition(_) => Option::None,
            Rule::LatinSquare(_) => Option::None,
            Rule::StandardBoxes(_) => Option::None,
            Rule::GivenDigit(_) => Option::None,
            Rule::KillerCage(c) => c.spec_cells(),
            Rule::LittleKiller(c) => c.spec_cells(),
            Rule::Arrow(c) => c.spec_cells(),
            Rule::Thermo(c) => c.spec_cells(),
            Rule::Palindrome(c) => c.spec_cells(),
            Rule::GermanWhisper(c) => c.spec_cells(),
            Rule::Renban(c) => c.spec_cells(),
            Rule::AntiKnight(c) => c.spec_cells(),
            Rule::Diagonal(c) => c.spec_cells(),
            Rule::Parity(c) => c.spec_cells(),
            Rule::EntropicLine(c) => c.spec_cells(),
            Rule::XSum(c) => c.spec_cells(),
            Rule::EqualSum(c) => c.spec_cells(),
            Rule::WhiteKropki(c) => c.spec_cells(),
            Rule::BlackKropki(c) => c.spec_cells(),
            Rule::NegativeWhiteKropki(c) => c.spec_cells(),
            Rule::NegativeBlackKropki(c) => c.spec_cells(),
        }
    }

    open spec fn spec_max_cells(&self) -> usize {
        match self {
            Rule::DigitDefinition(_) => usize::MAX,
            Rule::LatinSquare(_) => usize::MAX,
            Rule::StandardBoxes(_) => usize::MAX,
            Rule::GivenDigit(_) => usize::MAX,
            Rule::KillerCage(c) => c.spec_max_cells(),
            Rule::LittleKiller(c) => c.spec_max_cells(),
            Rule::Arrow(c) => c.spec_max_cells(),
            Rule::Thermo(c) => c.spec_max_cells(),
            Rule::Palindrome(c) => c.spec_max_cells(),
            Rule::GermanWhisper(c) => c.spec_max_cells(),
            Rule::Renban(c) => c.spec_max_cells(),
            Rule::AntiKnight(c) => c.spec_max_cells(),
            Rule::Diagonal(c) => c.spec_max_cells(),
            Rule::Parity(c) => c.spec_max_cells(),
            Rule::EntropicLine(c) => c.spec_max_cells(),
            Rule::XSum(c) => c.spec_max_cells(),
            Rule::EqualSum(c) => c.spec_max_cells(),
            Rule::WhiteKropki(c) => c.spec_max_cells(),
            Rule::BlackKropki(c) => c.spec_max_cells(),
            Rule::NegativeWhiteKropki(c) => c.spec_max_cells(),
            Rule::NegativeBlackKropki(c) => c.spec_max_cells(),
        }
    }

    fn is_valid(&self) -> (r: bool) {
        match self {
            Rule::DigitDefinition(_) => true,
            Rule::LatinSquare(_) => true,
            Rule::StandardBoxes(_) => true,
            Rule::GivenDigit(_) => true,
            Rule::KillerCage(c) => c.is_valid(),
            Rule::LittleKiller(c) => c.is_valid(),
            Rule::Arrow(c) => c.is_valid(),
            Rule::Thermo(c) => c.is_valid(),
            Rule::Palindrome(c) => c.is_valid(),
            Rule::GermanWhisper(c) => c.is_valid(),
            Rule::Renban(c) => c.is_valid(),
            Rule::AntiKnight(c) => c.is_valid(),
            Rule::Diagonal(c) => c.is_valid(),
            Rule::Parity(c) => c.is_valid(),
            Rule::EntropicLine(c) => c.is_valid(),
            Rule::XSum(c) => c.is_valid(),
            Rule::EqualSum(c) => c.is_valid(),
            Rule::WhiteKropki(c) => c.is_valid(),
            Rule::BlackKropki(c) => c.is_valid(),
            Rule::NegativeWhiteKropki(c) => c.is_valid(),
            Rule::NegativeBlackKropki(c) => c.is_valid(),
        }
    }

    fn get_highlighted_cells(&self) -> (r: Option<&Vec<Cell>>) {
        match self {
            Rule::DigitDefinition(_) => None,
            Rule::LatinSquare(_) => None,
            Rule::StandardBoxes(_) => None,
            Rule::GivenDigit(_) => None,
            Rule::KillerCage(c) => c.get_highlighted_cells(),
            Rule::LittleKiller(c) => c.get_highlighted_cells(),
            Rule::Arrow(c) => c.get_highlighted_cells(),
            Rule::Thermo(c) => c.get_highlighted_cells(),
            Rule::Palindrome(c) => c.get_highlighted_cells(),
            Rule::GermanWhisper(c) => c.get_highlighted_cells(),
            Rule::Renban(c) => c.get_highlighted_cells(),
            Rule::AntiKnight(c) => c.get_highlighted_cells(),
            Rule::Diagonal(c) => c.get_highlighted_cells(),
            Rule::Parity(c) => c.get_highlighted_cells(),
            Rule::EntropicLine(c) => c.get_highlighted_cells(),
            Rule::XSum(c) => c.get_highlighted_cells(),
            Rule::EqualSum(c) => c.get_highlighted_cells(),
            Rule::WhiteKropki(c) => c.get_highlighted_cells(),
            Rule::BlackKropki(c) => c.get_highlighted_cells(),
            Rule::NegativeWhiteKropki(c) => c.get_highlighted_cells(),
            Rule::NegativeBlackKropki(c) => c.get_highlighted_cells(),
        }
    }

    fn push_highlighted_cell(&mut self, c: Cell) {
        match self {
            Rule::DigitDefinition(_) => (),
            Rule::LatinSquare(_) => (),
            Rule::StandardBoxes(_) => (),
            Rule::GivenDigit(_) => (),
            Rule::KillerCage(x) => x.push_highlighted_cell(c),
            Rule::LittleKiller(x) => x.push_highlighted_cell(c),
            Rule::Arrow(x) => x.push_highlighted_cell(c),
            Rule::Thermo(x) => x.push_highlighted_cell(c),
            Rule::Palindrome(x) => x.push_highlighted_cell(c),
            Rule::GermanWhisper(x) => x.push_highlighted_cell(c),
            Rule::Renban(x) => x.push_highlighted_cell(c),
            Rule::AntiKnight(x) => x.push_highlighted_cell(c),
            Rule::Diagonal(x) => x.push_highlighted_cell(c),
            Rule::Parity(x) => x.push_highlighted_cell(c),
            Rule::EntropicLine(x) => x.push_highlighted_cell(c),
            Rule::XSum(x) => x.push_highlighted_cell(c),
            Rule::EqualSum(x) => x.push_highlighted_cell(c),
            Rule::WhiteKropki(x) => x.push_highlighted_cell(c),
            Rule::BlackKropki(x) => x.push_highlighted_cell(c),
            Rule::NegativeWhiteKropki(x) => x.push_highlighted_cell(c),
            Rule::NegativeBlackKropki(x) => x.push_highlighted_cell(c),
        }
    }

    fn get_max_highlighted_cells(&self) -> (r: usize) {
        match self {
            Rule::DigitDefinition(_) => usize::MAX,
            Rule::LatinSquare(_) => usize::MAX,
            Rule::StandardBoxes(_) => usize::MAX,
            Rule::GivenDigit(_) => usize::MAX,
            Rule::KillerCage(c) => c.get_max_highlighted_cells(),
            Rule::LittleKiller(c) => c.get_max_highlighted_cells(),
            Rule::Arrow(c) => c.get_max_highlighted_cells(),
            Rule::Thermo(c) => c.get_max_highlighted_cells(),
            Rule::Palindrome(c) => c.get_max_highlighted_cells(),
            Rule::GermanWhisper(c) => c.get_max_highlighted_cells(),
            Rule::Renban(c) => c.get_max_highlighted_cells(),
            Rule::AntiKnight(c) => c.get_max_highlighted_cells(),
            Rule::Diagonal(c) => c.get_max_highlighted_cells(),
            Rule::Parity(c) => c.get_max_highlighted_cells(),
            Rule::EntropicLine(c) => c.get_max_highlighted_cells(),
            Rule::XSum(c) => c.get_max_highlighted_cells(),
            Rule::EqualSum(c) => c.get_max_highlighted_cells(),
            Rule::WhiteKropki(c) => c.get_max_highlighted_cells(),
            Rule::BlackKropki(c) => c.get_max_highlighted_cells(),
            Rule::NegativeWhiteKropki(c) => c.get_max_highlighted_cells(),
            Rule::NegativeBlackKropki(c) => c.get_max_highlighted_cells(),
        }
    }

    open spec fn spec_name(&self) -> Seq<char> {
        match self {
            Rule::DigitDefinition(_) => "Digit Definition"@,
            Rule::LatinSquare(_) => "Latin Square"@,
            Rule::StandardBoxes(_) => "Standard Boxes"@,
            Rule::GivenDigit(_) => "Given Digit"@,
            Rule::KillerCage(c) => c.spec_name(),
            Rule::LittleKiller(c) => c.spec_name(),
            Rule::Arrow(c) => c.spec_name(),
            Rule::Thermo(c) => c.spec_name(),
            Rule::Palindrome(c) => c.spec_name(),
            Rule::GermanWhisper(c) => c.spec_name(),
            Rule::Renban(c) => c.spec_name(),
            Rule::AntiKnight(c) => c.spec_name(),
            Rule::Diagonal(c) => c.spec_name(),
            Rule::Parity(c) => c.spec_name(),
            Rule::EntropicLine(c) => c.spec_name(),
            Rule::XSum(c) => c.spec_name(),
            Rule::EqualSum(c) => c.spec_name(),
            Rule::WhiteKropki(c) => c.spec_name(),
            Rule::BlackKropki(c) => c.spec_name(),
            Rule::NegativeWhiteKropki(c) => c.spec_name(),
            Rule::NegativeBlackKropki(c) => c.spec_name(),
        }
    }

    fn name(&self) -> (r: &'static str) {
        match self {
            Rule::DigitDefinition(_) => "Digit Definition",
            Rule::LatinSquare(_) => "Latin Square",
            Rule::StandardBoxes(_) => "Standard Boxes",
            Rule::GivenDigit(_) => "Given Digit",
            Rule::KillerCage(c) => c.name(),
            Rule::LittleKiller(c) => c.name(),
            Rule::Arrow(c) => c.name(),
            Rule::Thermo(c) => c.name(),
            Rule::Palindrome(c) => c.name(),
            Rule::GermanWhisper(c) => c.name(),
            Rule::Renban(c) => c.name(),
            Rule::AntiKnight(c) => c.name(),
            Rule::Diagonal(c) => c.name(),
            Rule::Parity(c) => c.name(),
            Rule::EntropicLine(c) => c.name(),
            Rule::XSum(c) => c.name(),
            Rule::EqualSum(c) => c.name(),
            Rule::WhiteKropki(c) => c.name(),
            Rule::BlackKropki(c) => c.name(),
            Rule::NegativeWhiteKropki(c) => c.name(),
            Rule::NegativeBlackKropki(c) => c.name(),
        }
    }
}

/// A value clone of a rule keeps its well-formedness, validity, claimed
/// dot key and meaning.
pub proof fn lemma_clone_keeps(r: &Rule, c: &Rule)
    requires
        r.cloned_from(c),
    ensures
        c.rule_wf() == r.rule_wf(),
        c.spec_valid() == r.spec_valid(),
        crate::constraint::kropki::rule_dot_key(*c, true)
            == crate::constraint::kropki::rule_dot_key(*r, true),
        crate::constraint::kropki::rule_dot_key(*c, false)
            == crate::constraint::kropki::rule_dot_key(*r, false),
        forall|rules: Seq<Rule>, asg: Seq<int>| #[trigger]
            c.sem(rules, asg) == r.sem(rules, asg),
        (c is WhiteKropki) == (r is WhiteKropki),
        (c is BlackKropki) == (r is BlackKropki),
        c is WhiteKropki ==> c->WhiteKropki_0.cells@ == r->WhiteKropki_0.cells@,
        c is BlackKropki ==> c->BlackKropki_0.cells@ == r->BlackKropki_0.cells@,
{
}

/// Which list of sibling rules a rule's meaning is read against does not
/// matter, as long as both lists claim the same positive dots.
pub proof fn lemma_sem_same_dots(r: &Rule, l1: Seq<Rule>, l2: Seq<Rule>)
    requires
        crate::constraint::kropki::dot_keys(l1, true) == crate::constraint::kropki::dot_keys(
            l2,
            true,
        ),
        crate::constraint::kropki::dot_keys(l1, false) == crate::constraint::kropki::dot_keys(
            l2,
            false,
        ),
    ensures
        forall|asg: Seq<int>| #[trigger] r.sem(l1, asg) == r.sem(l2, asg),
{
    match r {
        Rule::NegativeWhiteKropki(_) => {
            assert forall|asg: Seq<int>| #[trigger] r.sem(l1, asg) == r.sem(l2, asg) by {
                assert forall|t: int|
                    #![trigger crate::constraint::kropki::neg_h_at(l1, asg, true, t)]
                    #![trigger crate::constraint::kropki::neg_h_at(l2, asg, true, t)]
                    0 <= t < 72 implies crate::constraint::kropki::neg_h_at(l1, asg, true, t)
                    == crate::constraint::kropki::neg_h_at(l2, asg, true, t) by {}
                assert forall|t: int|
                    #![trigger crate::constraint::kropki::neg_v_at(l1, asg, true, t)]
                    #![trigger crate::constraint::kropki::neg_v_at(l2, asg, true, t)]
                    0 <= t < 72 implies crate::constraint::kropki::neg_v_at(l1, asg, true, t)
                    == crate::constraint::kropki::neg_v_at(l2, asg, true, t) by {}
            }
        },
        Rule::NegativeBlackKropki(_) => {
            assert forall|asg: Seq<int>| #[trigger] r.sem(l1, asg) == r.sem(l2, asg) by {
                assert forall|t: int|
                    #![trigger crate::constraint::kropki::neg_h_at(l1, asg, false, t)]
                    #![trigger crate::constraint::kropki::neg_h_at(l2, asg, false, t)]
                    0 <= t < 72 implies crate::constraint::kropki::neg_h_at(l1, asg, false, t)
                    == crate::constraint::kropki::neg_h_at(l2, asg, false, t) by {}
                assert forall|t: int|
                    #![trigger crate::constraint::kropki::neg_v_at(l1, asg, false, t)]
                    #![trigger crate::constraint::kropki::neg_v_at(l2, asg, false, t)]
                    0 <= t < 72 implies crate::constraint::kropki::neg_v_at(l1, asg, false, t)
                    == crate::constraint::kropki::neg_v_at(l2, asg, false, t) by {}
            }
        },
        _ => {},
    }
}

/// Registers one assertion saying the cell at (`row`, `col`) takes one of
/// the nine legal digits, compiled as a disjunction of equalities.
pub fn assert_cell_has_digit(
    solver: &mut AssertionList,
    context: &mut SudokuContext,
    row: usize,
    col: usize,
)
    requires
        old(context).wf(),
        log_wf(old(context), old(solver)@),
        row < 9,
        col < 9,
    ensures
        final(context).wf(),
        final(context).extends(old(context)),
        log_wf(final(context), final(solver)@),
        final(solver)@.len() == old(solver)@.len() + 1,
        forall|k: int| 0 <= k < old(solver)@.len() ==> final(solver)@[k] == old(solver)@[k],
        forall|asg: Seq<int>|
            full_asg(asg) ==> (final(context).bval(final(solver)@.last(), asg) <==> (1 <= cell_val(
                asg,
                Cell { row, col },
            ) <= 9)),
{
    let cellid = context.get_cell(row, col);
    let ghost c0 = *context;
    let mut ids: Vec<crate::expr::BoolId> = Vec::new();
    let mut i: usize = 1;
    while i <= 9
        invariant
            context.wf(),
            context.extends(&c0),
            c0.wf(),
            row < 9,
            col < 9,
            1 <= i <= 10,
            ids@.len() == i - 1,
            (cellid as int) < c0.ipool().len(),
            forall|asg: Seq<int>|
                full_asg(asg) ==> #[trigger] c0.ival(cellid, asg) == cell_val(
                    asg,
                    Cell { row, col },
                ),
            forall|j: int| 0 <= j < ids@.len() ==> ((#[trigger] ids@[j]) as int)
                < context.bpool().len(),
            forall|j: int, asg: Seq<int>|
                0 <= j < ids@.len() && full_asg(asg) ==> (#[trigger] context.bval(ids@[j], asg)
                    <==> cell_val(asg, Cell { row, col }) == j + 1),
        decreases 10 - i,
    {
        let ghost p0 = *context;
        let cid = context.const_int(i as i32);
        let ghost p1 = *context;
        let b = context.mk_eq(cellid, cid);
        ids.push(b);
        proof {
            lemma_extends_trans(p0, p1, *context);
            lemma_extends_trans(c0, p0, *context);
            assert forall|j: int, asg: Seq<int>|
                0 <= j < ids@.len() && full_asg(asg) implies (#[trigger] context.bval(
                ids@[j],
                asg,
            ) <==> cell_val(asg, Cell { row, col }) == j + 1) by {
                if j < ids@.len() - 1 {
                    assert(context.bval(ids@[j], asg) == p0.bval(ids@[j], asg));
                } else {
                    assert(ids@[j] == b);
                    assert(context.bval(b, asg) == (p1.ival(cellid, asg) == p1.ival(cid, asg)));
                    assert(p1.ival(cellid, asg) == p0.ival(cellid, asg));
                    assert(p0.ival(cellid, asg) == c0.ival(cellid, asg));
                    assert(p1.ival(cid, asg) == i as int);
                }
            }
        }
        i += 1;
    }
    let ghost cn = *context;
    let ghost idsq = ids@;
    let b = context.mk_or(ids);
    solver.assert_id(b);
    proof {
        lemma_extends_trans(c0, cn, *context);
        assert forall|asg: Seq<int>| full_asg(asg) implies (context.bval(solver@.last(), asg)
            <==> (1 <= cell_val(asg, Cell { row, col }) <= 9)) by {
            assert(solver@.last() == b);
            let v = cell_val(asg, Cell { row, col });
            if context.bval(b, asg) {
                let j = choose|j: int| 0 <= j < idsq.len() && cn.bval(#[trigger] idsq[j], asg);
                assert(v == j + 1);
            }
            if 1 <= v <= 9 {
                let j = v - 1;
                assert(cn.bval(idsq[j], asg));
            }
        }
    }
}

/// Registers one assertion saying the listed cells take pairwise
/// different values.
pub fn assert_cells_distinct(
    solver: &mut AssertionList,
    context: &mut SudokuContext,
    cs: &Vec<Cell>,
)
    requires
        old(context).wf(),
        log_wf(old(context), old(solver)@),
        cells_in_bounds(cs@),
    ensures
        final(context).wf(),
        final(context).extends(old(context)),
        log_wf(final(context), final(solver)@),
        final(solver)@.len() == old(solver)@.len() + 1,
        forall|k: int| 0 <= k < old(solver)@.len() ==> final(solver)@[k] == old(solver)@[k],
        forall|asg: Seq<int>|
            full_asg(asg) ==> (final(context).bval(final(solver)@.last(), asg)
                <==> pairwise_distinct(cell_vals(asg, cs@))),
{
    let ids = context.ids_of_cells(cs);
    let ghost mid = *context;
    let ghost idsq = ids@;
    let b = context.mk_distinct(ids);
    solver.assert_id(b);
    proof {
        assert forall|asg: Seq<int>| full_asg(asg) implies (context.bval(solver@.last(), asg)
            <==> pairwise_distinct(cell_vals(asg, cs@))) by {
            assert(context.bval(b, asg) == pairwise_distinct(mid.ivals(idsq, asg)));
        }
    }
}

/// Registers one assertion saying the listed cells sum to `total`.
pub fn assert_cells_sum_eq_const(
    solver: &mut AssertionList,
    context: &mut SudokuContext,
    cs: &Vec<Cell>,
    total: i32,
)
    requires
        old(context).wf(),
        log_wf(old(context), old(solver)@),
        cells_in_bounds(cs@),
    ensures
        final(context).wf(),
        final(context).extends(old(context)),
        log_wf(final(context), final(solver)@),
        final(solver)@.len() == old(solver)@.len() + 1,
        forall|k: int| 0 <= k < old(solver)@.len() ==> final(solver)@[k] == old(solver)@[k],
        forall|asg: Seq<int>|
            full_asg(asg) ==> (final(context).bval(final(solver)@.last(), asg) <==> sum_of(
                cell_vals(asg, cs@),
            ) == total as int),
{
    let ids = context.ids_of_cells(cs);
    let ghost c0 = *context;
    let ghost idsq = ids@;
    let sumid = context.mk_add(ids);
    let ghost c1 = *context;
    let constid = context.const_int(total);
    let ghost c2 = *context;
    let b = context.mk_eq(sumid, constid);
    solver.assert_id(b);
    proof {
        lemma_extends_trans(c0, c1, c2);
        lemma_extends_trans(c0, c2, *context);
        assert forall|asg: Seq<int>| full_asg(asg) implies (context.bval(solver@.last(), asg)
            <==> sum_of(cell_vals(asg, cs@)) == total as int) by {
            assert(solver@.last() == b);
            assert(context.bval(b, asg) == (c2.ival(sumid, asg) == c2.ival(constid, asg)));
            assert(c2.ival(sumid, asg) == c1.ival(sumid, asg));
            assert(c1.ival(sumid, asg) == sum_of(c0.ivals(idsq, asg)));
            assert(c0.ivals(idsq, asg) == cell_vals(asg, cs@));
            assert(c2.ival(constid, asg) == total as int);
        }
    }
}

/// Registers one assertion saying the listed cells sum to the value of
/// one further cell.
pub fn assert_cells_sum_eq_cell(
    solver: &mut AssertionList,
    context: &mut SudokuContext,
    tail: &Vec<Cell>,
    head: Cell,
)
    requires
        old(context).wf(),
        log_wf(old(context), old(solver)@),
        cells_in_bounds(tail@),
        cell_in_bounds(head),
    ensures
        final(context).wf(),
        final(context).extends(old(context)),
        log_wf(final(context), final(solver)@),
        final(solver)@.len() == old(solver)@.len() + 1,
        forall|k: int| 0 <= k < old(solver)@.len() ==> final(solver)@[k] == old(solver)@[k],
        forall|asg: Seq<int>|
            full_asg(asg) ==> (final(context).bval(final(solver)@.last(), asg) <==> sum_of(
                cell_vals(asg, tail@),
            ) == cell_val(asg, head)),
{
    let ids = context.ids_of_cells(tail);
    let ghost c0 = *context;
    let ghost idsq = ids@;
    let sumid = context.mk_add(ids);
    let ghost c1 = *context;
    let headid = context.get_cell(head.row, head.col);
    let b = context.mk_eq(sumid, headid);
    solver.assert_id(b);
    proof {
        lemma_extends_trans(c0, c1, *context);
        assert forall|asg: Seq<int>| full_asg(asg) implies (context.bval(solver@.last(), asg)
            <==> sum_of(cell_vals(asg, tail@)) == cell_val(asg, head)) by {
            assert(solver@.last() == b);
            assert(context.bval(b, asg) == (c1.ival(sumid, asg) == c1.ival(headid, asg)));
            assert(c1.ival(sumid, asg) == sum_of(c0.ivals(idsq, asg)));
            assert(c0.ivals(idsq, asg) == cell_vals(asg, tail@));
            assert(c1.ival(headid, asg) == cell_val(asg, head));
        }
    }
}

/// Registers one assertion saying two cells take equal values.
pub fn assert_cells_eq(
    solver: &mut AssertionList,
    context: &mut SudokuContext,
    a: Cell,
    b: Cell,
)
    requires
        old(context).wf(),
        log_wf(old(context), old(solver)@),
        cell_in_bounds(a),
        cell_in_bounds(b),
    ensures
        final(context).wf(),
        final(context).extends(old(context)),
        log_wf(final(context), final(solver)@),
        final(solver)@.len() == old(solver)@.len() + 1,
        forall|k: int| 0 <= k < old(solver)@.len() ==> final(solver)@[k] == old(solver)@[k],
        forall|asg: Seq<int>|
            full_asg(asg) ==> (final(context).bval(final(solver)@.last(), asg) <==> cell_val(
                asg,
                a,
            ) == cell_val(asg, b)),
{
    let ida = context.get_cell(a.row, a.col);
    let idb = context.get_cell(b.row, b.col);
    let ghost c0 = *context;
    let bb = context.mk_eq(ida, idb);
    solver.assert_id(bb);
    proof {
        assert forall|asg: Seq<int>| full_asg(asg) implies (context.bval(solver@.last(), asg)
            <==> cell_val(asg, a) == cell_val(asg, b)) by {
            assert(solver@.last() == bb);
            assert(context.bval(bb, asg) == (c0.ival(ida, asg) == c0.ival(idb, asg)));
        }
    }
}

/// Registers one assertion saying the first cell's value is strictly
/// below the second's.
pub fn assert_cells_lt(
    solver: &mut AssertionList,
    context: &mut SudokuContext,
    a: Cell,
    b: Cell,
)
    requires
        old(context).wf(),
        log_wf(old(context), old(solver)@),
        cell_in_bounds(a),
        cell_in_bounds(b),
    ensures
        final(context).wf(),
        final(context).extends(old(context)),
        log_wf(final(context), final(solver)@),
        final(solver)@.len() == old(solver)@.len() + 1,
        forall|k: int| 0 <= k < old(solver)@.len() ==> final(solver)@[k] == old(solver)@[k],
        forall|asg: Seq<int>|
            full_asg(asg) ==> (final(context).bval(final(solver)@.last(), asg) <==> cell_val(
                asg,
                a,
            ) < cell_val(asg, b)),
{
    let ida = context.get_cell(a.row, a.col);
    let idb = context.get_cell(b.row, b.col);
    let ghost c0 = *context;
    let bb = context.mk_lt(ida, idb);
    solver.assert_id(bb);
    proof {
        assert forall|asg: Seq<int>| full_asg(asg) implies (context.bval(solver@.last(), asg)
            <==> cell_val(asg, a) < cell_val(asg, b)) by {
            assert(solver@.last() == bb);
            assert(context.bval(bb, asg) == (c0.ival(ida, asg) < c0.ival(idb, asg)));
        }
    }
}

/// Registers one assertion saying two cells' values differ by at least
/// `k`, compiled as a disjunction over the difference and its negation.
pub fn assert_cells_far(
    solver: &mut AssertionList,
    context: &mut SudokuContext,
    prev: Cell,
    next: Cell,
    k: i32,
)
    requires
        old(context).wf(),
        log_wf(old(context), old(solver)@),
        cell_in_bounds(prev),
        cell_in_bounds(next),
    ensures
        final(context).wf(),
        final(context).extends(old(context)),
        log_wf(final(context), final(solver)@),
        final(solver)@.len() == old(solver)@.len() + 1,
        forall|kk: int| 0 <= kk < old(solver)@.len() ==> final(solver)@[kk] == old(solver)@[kk],
        forall|asg: Seq<int>|
            full_asg(asg) ==> (final(context).bval(final(solver)@.last(), asg) <==> (cell_val(
                asg,
                next,
            ) - cell_val(asg, prev) >= k as int || cell_val(asg, prev) - cell_val(asg, next)
                >= k as int)),
{
    let idp = context.get_cell(prev.row, prev.col);
    let idn = context.get_cell(next.row, next.col);
    let ghost c0 = *context;
    let d = context.mk_sub(idn, idp);
    let ghost c1 = *context;
    let m = context.mk_neg(d);
    let ghost c2 = *context;
    let kid = context.const_int(k);
    let ghost c3 = *context;
    let g1 = context.mk_ge(d, kid);
    let ghost c4 = *context;
    let g2 = context.mk_ge(m, kid);
    let ghost c5 = *context;
    let mut orargs: Vec<crate::expr::BoolId> = Vec::new();
    orargs.push(g1);
    orargs.push(g2);
    let ghost idsq = orargs@;
    let orb = context.mk_or(orargs);
    solver.assert_id(orb);
    proof {
        lemma_extends_trans(c0, c1, c2);
        lemma_extends_trans(c0, c2, c3);
        lemma_extends_trans(c0, c3, c4);
        lemma_extends_trans(c0, c4, c5);
        lemma_extends_trans(c0, c5, *context);
        lemma_extends_trans(c1, c2, c3);
        lemma_extends_trans(c2, c3, c4);
        lemma_extends_trans(c3, c4, c5);
        lemma_extends_trans(c1, c3, c4);
        lemma_extends_trans(c2, c4, c5);
        assert forall|asg: Seq<int>| full_asg(asg) implies (context.bval(solver@.last(), asg)
            <==> (cell_val(asg, next) - cell_val(asg, prev) >= k as int || cell_val(asg, prev)
                - cell_val(asg, next) >= k as int)) by {
            assert(solver@.last() == orb);
            assert(idsq =~= seq![g1, g2]);
            let dv = cell_val(asg, next) - cell_val(asg, prev);
            assert(c1.ival(d, asg) == dv);
            assert(c2.ival(m, asg) == -c1.ival(d, asg));
            assert(c3.ival(kid, asg) == k as int);
            assert(c4.bval(g1, asg) == (c3.ival(d, asg) >= c3.ival(kid, asg)));
            assert(c5.bval(g2, asg) == (c4.ival(m, asg) >= c4.ival(kid, asg)));
            assert(c3.ival(d, asg) == dv);
            assert(c4.ival(m, asg) == -dv);
            assert(c4.ival(kid, asg) == k as int);
            assert(context.bval(orb, asg) == (exists|j: int|
                0 <= j < idsq.len() && c5.bval(#[trigger] idsq[j], asg)));
            assert(c5.bval(g1, asg) == c4.bval(g1, asg));
            if context.bval(orb, asg) {
                let j = choose|j: int| 0 <= j < idsq.len() && c5.bval(#[trigger] idsq[j], asg);
                assert(j == 0 || j == 1);
            }
            if dv >= k as int {
                assert(c5.bval(idsq[0], asg));
            } else if -dv >= k as int {
                assert(c5.bval(idsq[1], asg));
            }
        }
    }
}

/// Registers one assertion saying two cells take different values.
pub fn assert_cells_neq(
    solver: &mut AssertionList,
    context: &mut SudokuContext,
    a: Cell,
    b: Cell,
)
    requires
        old(context).wf(),
        log_wf(old(context), old(solver)@),
        cell_in_bounds(a),
        cell_in_bounds(b),
    ensures
        final(context).wf(),
        final(context).extends(old(context)),
        log_wf(final(context), final(solver)@),
        final(solver)@.len() == old(solver)@.len() + 1,
        forall|k: int| 0 <= k < old(solver)@.len() ==> final(solver)@[k] == old(solver)@[k],
        forall|asg: Seq<int>|
            full_asg(asg) ==> (final(context).bval(final(solver)@.last(), asg) <==> cell_val(
                asg,
                a,
            ) != cell_val(asg, b)),
{
    let ida = context.get_cell(a.row, a.col);
    let idb = context.get_cell(b.row, b.col);
    let ghost c0 = *context;
    let e = context.mk_eq(ida, idb);
    let ghost c1 = *context;
    let ne = context.mk_not(e);
    solver.assert_id(ne);
    proof {
        lemma_extends_trans(c0, c1, *context);
        assert forall|asg: Seq<int>| full_asg(asg) implies (context.bval(solver@.last(), asg)
            <==> cell_val(asg, a) != cell_val(asg, b)) by {
            assert(solver@.last() == ne);
            assert(context.bval(ne, asg) == !c1.bval(e, asg));
            assert(c1.bval(e, asg) == (c0.ival(ida, asg) == c0.ival(idb, asg)));
        }
    }
}

/// Band a value falls in when the legal digit range is cut into three
/// equal slices (after the offset that makes the cut independent of where
/// the range starts).
pub open spec fn band_of(v: int) -> int {
    (v - 1) / 3
}

/// Bands of the listed cells' values, in order.
pub open spec fn band_vals(asg: Seq<int>, cs: Seq<Cell>) -> Seq<int> {
    Seq::new(cs.len(), |k: int| band_of(cell_val(asg, cs[k])))
}

/// Registers one assertion saying the listed cells' bands are pairwise
/// different, compiled as distinctness of divided-and-offset expressions.
pub fn assert_cells_bands_distinct(
    solver: &mut AssertionList,
    context: &mut SudokuContext,
    cs: &Vec<Cell>,
    offset: i32,
    divisor: i32,
)
    requires
        old(context).wf(),
        log_wf(old(context), old(solver)@),
        cells_in_bounds(cs@),
        offset == 1,
        divisor == 3,
    ensures
        final(context).wf(),
        final(context).extends(old(context)),
        log_wf(final(context), final(solver)@),
        final(solver)@.len() == old(solver)@.len() + 1,
        forall|k: int| 0 <= k < old(solver)@.len() ==> final(solver)@[k] == old(solver)@[k],
        forall|asg: Seq<int>|
            full_asg(asg) ==> (final(context).bval(final(solver)@.last(), asg)
                <==> pairwise_distinct(band_vals(asg, cs@))),
{
    let ghost c0 = *context;
    let offid = context.const_int(offset);
    let ghost c1 = *context;
    let divid = context.const_int(divisor);
    let ghost c2 = *context;
    let mut bids: Vec<crate::expr::IntId> = Vec::new();
    let n = cs.len();
    let mut i: usize = 0;
    proof {
        lemma_extends_trans(c0, c1, c2);
    }
    while i < n
        invariant
            context.wf(),
            context.extends(&c2),
            c2.wf(),
            n == cs@.len(),
            i <= n,
            cells_in_bounds(cs@),
            bids@.len() == i as int,
            (offid as int) < c2.ipool().len(),
            (divid as int) < c2.ipool().len(),
            forall|asg: Seq<int>| #[trigger] c2.ival(offid, asg) == 1,
            forall|asg: Seq<int>| #[trigger] c2.ival(divid, asg) == 3,
            forall|j: int| 0 <= j < i as int ==> ((#[trigger] bids@[j]) as int)
                < context.ipool().len(),
            forall|j: int, asg: Seq<int>|
                0 <= j < i as int && full_asg(asg) ==> #[trigger] context.ival(bids@[j], asg)
                    == band_of(cell_val(asg, cs@[j])),
        decreases n - i,
    {
        let c = cs[i];
        let cellid = context.get_cell(c.row, c.col);
        let ghost p0 = *context;
        let sub = context.mk_sub(cellid, offid);
        let ghost p1 = *context;
        let d = context.mk_div(sub, divid);
        bids.push(d);
        proof {
            lemma_extends_trans(p0, p1, *context);
            lemma_extends_trans(c2, p0, *context);
            assert forall|j: int, asg: Seq<int>|
                0 <= j < i as int + 1 && full_asg(asg) implies #[trigger] context.ival(
                bids@[j],
                asg,
            ) == band_of(cell_val(asg, cs@[j])) by {
                if j < i as int {
                    assert(context.ival(bids@[j], asg) == p0.ival(bids@[j], asg));
                } else {
                    assert(bids@[j] == d);
                    assert(context.ival(d, asg) == (if p1.ival(divid, asg) == 0 {
                        0int
                    } else {
                        p1.ival(sub, asg) / p1.ival(divid, asg)
                    }));
                    assert(p1.ival(sub, asg) == p0.ival(cellid, asg) - p0.ival(offid, asg));
                    assert(p0.ival(cellid, asg) == cell_val(asg, cs@[j]));
                    assert(p0.ival(offid, asg) == c2.ival(offid, asg));
                    assert(p1.ival(divid, asg) == c2.ival(divid, asg));
                }
            }
        }
        i += 1;
    }
    let ghost cn = *context;
    let ghost bidsq = bids@;
    let b = context.mk_distinct(bids);
    solver.assert_id(b);
    proof {
        lemma_extends_trans(c0, c2, cn);
        lemma_extends_trans(c0, cn, *context);
        assert forall|asg: Seq<int>| full_asg(asg) implies (context.bval(solver@.last(), asg)
            <==> pairwise_distinct(band_vals(asg, cs@))) by {
            assert(solver@.last() == b);
            assert(context.bval(b, asg) == pairwise_distinct(cn.ivals(bidsq, asg)));
            assert forall|j: int| 0 <= j < bidsq.len() implies cn.ivals(bidsq, asg)[j]
                == band_vals(asg, cs@)[j] by {
                assert(cn.ival(bidsq[j], asg) == band_of(cell_val(asg, cs@[j])));
            }
            assert(cn.ivals(bidsq, asg) =~= band_vals(asg, cs@));
        }
    }
}

/// Registers one assertion saying no two of the listed cells' values
/// differ by `gap` or more (the negated existential span form).
pub fn assert_cells_no_gap(
    solver: &mut AssertionList,
    context: &mut SudokuContext,
    cs: &Vec<Cell>,
    gap: i64,
)
    requires
        old(context).wf(),
        log_wf(old(context), old(solver)@),
        cells_in_bounds(cs@),
    ensures
        final(context).wf(),
        final(context).extends(old(context)),
        log_wf(final(context), final(solver)@),
        final(solver)@.len() == old(solver)@.len() + 1,
        forall|k: int| 0 <= k < old(solver)@.len() ==> final(solver)@[k] == old(solver)@[k],
        forall|asg: Seq<int>|
            full_asg(asg) ==> (final(context).bval(final(solver)@.last(), asg)
                <==> !crate::expr::exists_pair_gap(cell_vals(asg, cs@), gap as int)),
{
    let ids = context.ids_of_cells(cs);
    let ghost c0 = *context;
    let ghost idsq = ids@;
    let b1 = context.mk_pair_gap(ids, gap);
    let ghost c1 = *context;
    let b2 = context.mk_not(b1);
    solver.assert_id(b2);
    proof {
        lemma_extends_trans(c0, c1, *context);
        assert forall|asg: Seq<int>| full_asg(asg) implies (context.bval(solver@.last(), asg)
            <==> !crate::expr::exists_pair_gap(cell_vals(asg, cs@), gap as int)) by {
            assert(solver@.last() == b2);
            assert(context.bval(b2, asg) == !c1.bval(b1, asg));
            assert(c1.bval(b1, asg) == crate::expr::exists_pair_gap(
                c0.ivals(idsq, asg),
                gap as int,
            ));
            assert(c0.ivals(idsq, asg) == cell_vals(asg, cs@));
        }
    }
}

/// Compares two text slices character by character.
pub fn str_equal(a: &str, b: &str) -> (r: bool)
    ensures
        r == (a@ == b@),
{
    let n = a.unicode_len();
    let m = b.unicode_len();
    if n != m {
        proof {
            if a@ == b@ {
                assert(a@.len() == b@.len());
            }
        }
        return false;
    }
    let mut i: usize = 0;
    while i < n
        invariant
            n as int == a@.len(),
            n as int == b@.len(),
            i <= n,
            forall|j: int| 0 <= j < i as int ==> a@[j] == b@[j],
        decreases n - i,
    {
        let ca = a.get_char(i);
        let cb = b.get_char(i);
        if ca != cb {
            proof {
                if a@ == b@ {
                    assert(a@[i as int] == b@[i as int]);
                }
            }
            return false;
        }
        i += 1;
    }
    proof {
        assert(a@ =~= b@);
    }
    true
}

/// The display name belongs to the catalog of configurable rule types.
pub open spec fn is_configurable_name(nm: Seq<char>) -> bool {
    ||| nm == "Anti-Knight"@
    ||| nm == "Arrow"@
    ||| nm == "Black Kropki Dot"@
    ||| nm == "Black Kropki Dots (Negative Constraint)"@
    ||| nm == "Diagonal"@
    ||| nm == "Equal Sum"@
    ||| nm == "Entropic Line"@
    ||| nm == "German Whisper"@
    ||| nm == "Killer Cage"@
    ||| nm == "Little Killer"@
    ||| nm == "Palindrome"@
    ||| nm == "Parity"@
    ||| nm == "Renban"@
    ||| nm == "Thermo"@
    ||| nm == "White Kropki Dot"@
    ||| nm == "White Kropki Dots (Negative Constraint)"@
    ||| nm == "X-Sum"@
}

/// The rule is the default-configured instance of the catalog entry with
/// the given display name.
pub open spec fn default_rule_for(r: Rule, nm: Seq<char>) -> bool {
    match r {
        Rule::AntiKnight(_) => nm == "Anti-Knight"@,
        Rule::Arrow(c) => nm == "Arrow"@ && c.cells@.len() == 0,
        Rule::BlackKropki(c) => nm == "Black Kropki Dot"@ && c.cells@.len() == 0,
        Rule::NegativeBlackKropki(_) => nm == "Black Kropki Dots (Negative Constraint)"@,
        Rule::Diagonal(c) => nm == "Diagonal"@ && c.direction
            == crate::constraint::diagonal::Direction::Both,
        Rule::EqualSum(c) => nm == "Equal Sum"@ && c.cells@.len() == 0,
        Rule::EntropicLine(c) => nm == "Entropic Line"@ && c.cells@.len() == 0,
        Rule::GermanWhisper(c) => nm == "German Whisper"@ && c.cells@.len() == 0,
        Rule::KillerCage(c) => nm == "Killer Cage"@ && c.cells@.len() == 0 && c.total@ == "0"@,
        Rule::LittleKiller(c) => nm == "Little Killer"@ && c.cells@.len() == 0 && c.total@
            == "0"@,
        Rule::Palindrome(c) => nm == "Palindrome"@ && c.cells@.len() == 0,
        Rule::Parity(c) => nm == "Parity"@ && c.cells@.len() == 0 && c.parity
            == crate::constraint::parity::Parity::Odd,
        Rule::Renban(c) => nm == "Renban"@ && c.cells@.len() == 0,
        Rule::Thermo(c) => nm == "Thermo"@ && c.cells@.len() == 0,
        Rule::WhiteKropki(c) => nm == "White Kropki Dot"@ && c.cells@.len() == 0,
        Rule::NegativeWhiteKropki(_) => nm == "White Kropki Dots (Negative Constraint)"@,
        Rule::XSum(c) => nm == "X-Sum"@ && c.cells@.len() == 0 && c.total@ == "0"@
            && c.direction == crate::constraint::x_sum::Direction::Horizontal,
        _ => false,
    }
}

/// The registry: builds a default-configured instance of the catalog
/// entry with the given display name, the only extension point for rule
/// kinds.
pub fn make_configurable(name: &str) -> (r: Option<Rule>)
    ensures
        (r is Some) == is_configurable_name(name@),
        r is Some ==> default_rule_for(r.unwrap(), name@),
{
    if str_equal(name, "Anti-Knight") {
        Some(Rule::AntiKnight(AntiKnightConstraint))
    } else if str_equal(name, "Arrow") {
        Some(Rule::Arrow(ArrowConstraint::default()))
    } else if str_equal(name, "Black Kropki Dot") {
        Some(Rule::BlackKropki(BlackKropkiConstraint::default()))
    } else if str_equal(name, "Black Kropki Dots (Negative Constraint)") {
        Some(Rule::NegativeBlackKropki(NegativeBlackKropkiConstraint))
    } else if str_equal(name, "Diagonal") {
        Some(Rule::Diagonal(DiagonalConstraint::default()))
    } else if str_equal(name, "Equal Sum") {
        Some(Rule::EqualSum(EqualSumConstraint::default()))
    } else if str_equal(name, "Entropic Line") {
        Some(Rule::EntropicLine(EntropicLineConstraint::default()))
    } else if str_equal(name, "German Whisper") {
        Some(Rule::GermanWhisper(GermanWhisperConstraint::default()))
    } else if str_equal(name, "Killer Cage") {
        Some(Rule::KillerCage(KillerCageConstraint::default()))
    } else if str_equal(name, "Little Killer") {
        Some(Rule::LittleKiller(LittleKillerConstraint::default()))
    } else if str_equal(name, "Palindrome") {
        Some(Rule::Palindrome(PalindromeConstraint::default()))
    } else if str_equal(name, "Parity") {
        Some(Rule::Parity(ParityConstraint::default()))
    } else if str_equal(name, "Renban") {
        Some(Rule::Renban(RenbanConstraint::default()))
    } else if str_equal(name, "Thermo") {
        Some(Rule::Thermo(ThermoConstraint::default()))
    } else if str_equal(name, "White Kropki Dot") {
        Some(Rule::WhiteKropki(WhiteKropkiConstraint::default()))
    } else if str_equal(name, "White Kropki Dots (Negative Constraint)") {
        Some(Rule::NegativeWhiteKropki(NegativeWhiteKropkiConstraint))
    } else if str_equal(name, "X-Sum") {
        Some(Rule::XSum(XSumConstraint::default()))
    } else {
        None
    }
}

/// The catalog's display names, in registry order.
pub fn configurable_names() -> (r: Vec<&'static str>)
    ensures
        r@.len() == 17,
        forall|i: int| 0 <= i < r@.len() ==> is_configurable_name((#[trigger] r@[i])@),
        r@[0]@ == "Anti-Knight"@ && r@[1]@ == "Arrow"@ && r@[2]@ == "Black Kropki Dot"@,
        r@[3]@ == "Black Kropki Dots (Negative Constraint)"@ && r@[4]@ == "Diagonal"@,
        r@[5]@ == "Equal Sum"@ && r@[6]@ == "Entropic Line"@ && r@[7]@ == "German Whisper"@,
        r@[8]@ == "Killer Cage"@ && r@[9]@ == "Little Killer"@ && r@[10]@ == "Palindrome"@,
        r@[11]@ == "Parity"@ && r@[12]@ == "Renban"@ && r@[13]@ == "Thermo"@,
        r@[14]@ == "White Kropki Dot"@ && r@[15]@ == "White Kropki Dots (Negative Constraint)"@,
        r@[16]@ == "X-Sum"@,
{
    let mut r: Vec<&'static str> = Vec::new();
    r.push("Anti-Knight");
    r.push("Arrow");
    r.push("Black Kropki Dot");
    r.push("Black Kropki Dots (Negative Constraint)");
    r.push("Diagonal");
    r.push("Equal Sum");
    r.push("Entropic Line");
    r.push("German Whisper");
    r.push("Killer Cage");
    r.push("Little Killer");
    r.push("Palindrome");
    r.push("Parity");
    r.push("Renban");
    r.push("Thermo");
    r.push("White Kropki Dot");
    r.push("White Kropki Dots (Negative Constraint)");
    r.push("X-Sum");
    r
}

/// The rule a fresh configuration starts from.
pub fn make_default_constraint() -> (r: Rule)
    ensures
        default_rule_for(r, "Killer Cage"@),
{
    Rule::KillerCage(KillerCageConstraint::default())
}

} // verus!
