//! What the parser produces: tokens and one parsed source line.
use vstd::prelude::*;
use crate::instruction::Opcode;

verus! {

/// The parser's atomic result.
#[derive(Debug, PartialEq)]
pub enum Token {
    Op { code: Opcode },
    Register { reg_num: u8 },
    IntegerOperand { value: i32 },
    LabelDeclaration { name: String },
    LabelUsage { name: String },
    Directive { name: String },
}

/// A token as a mathematical value.
pub enum TokenView {
    Op(Opcode),
    Register(u8),
    Integer(i32),
    LabelDeclaration(Seq<char>),
    LabelUsage(Seq<char>),
    Directive(Seq<char>),
}

impl View for Token {
    type V = TokenView;

    open spec fn view(&self) -> TokenView {
        match self {
            Token::Op { code } => TokenView::Op(*code),
            Token::Register { reg_num } => TokenView::Register(*reg_num),
            Token::IntegerOperand { value } => TokenView::Integer(*value),
            Token::LabelDeclaration { name } => TokenView::LabelDeclaration(name@),
            Token::LabelUsage { name } => TokenView::LabelUsage(name@),
            Token::Directive { name } => TokenView::Directive(name@),
        }
    }
}

pub open spec fn opt_view(t: Option<Token>) -> Option<TokenView> {
    match t {
        Some(t) => Some(t@),
        None => None,
    }
}

/// One parsed source line: an optional label declaration, the opcode and up
/// to three operands.
#[derive(Debug, PartialEq)]
pub struct AssemblerInstruction {
    pub opcode: Option<Token>,
    pub label: Option<Token>,
    pub directive: Option<Token>,
    pub operand1: Option<Token>,
    pub operand2: Option<Token>,
    pub operand3: Option<Token>,
}

pub struct InstructionView {
    pub opcode: Option<TokenView>,
    pub label: Option<TokenView>,
    pub directive: Option<TokenView>,
    pub operand1: Option<TokenView>,
    pub operand2: Option<TokenView>,
    pub operand3: Option<TokenView>,
}

impl View for AssemblerInstruction {
    type V = InstructionView;

    open spec fn view(&self) -> InstructionView {
        InstructionView {
            opcode: opt_view(self.opcode),
            label: opt_view(self.label),
            directive: opt_view(self.directive),
            operand1: opt_view(self.operand1),
            operand2: opt_view(self.operand2),
            operand3: opt_view(self.operand3),
        }
    }
}

/// The name that an instruction declares as a label, if any.
pub open spec fn declared_label(i: InstructionView) -> Option<Seq<char>> {
    match i.label {
        Some(TokenView::LabelDeclaration(name)) => Some(name),
        _ => None,
    }
}

impl AssemblerInstruction {
    pub fn is_label(&self) -> (r: bool)
        ensures
            r == self.label.is_some(),
    {
        self.label.is_some()
    }

    pub fn label_name(&self) -> (r: Option<String>)
        ensures
            match r {
                Some(n) => declared_label(self@) == Some(n@),
                None => declared_label(self@).is_none(),
            },
    {
        match &self.label {
            Some(Token::LabelDeclaration { name }) => Some(name.clone()),
            _ => None,
        }
    }
}

} // verus!
