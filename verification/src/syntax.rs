//! What is read off the syntax tree of a source file, as plain values.
use crate::usage::SymbolStyle;
use syn::spanned::Spanned;
use syn::visit::Visit;
use vstd::prelude::*;

verus! {

/// A path as it was written: its segments without their arguments, and for a path such as
/// `<T as a::b>::c` how many of its segments belong to the trait.
#[derive(Debug)]
pub struct WrittenPath {
    pub leading_colon: bool,
    pub segments: Vec<String>,
    pub line: usize,
    pub style: SymbolStyle,
    pub trait_segments: Option<usize>,
}

/// The mathematical value of a [`WrittenPath`].
pub struct WrittenPathView {
    pub leading_colon: bool,
    pub segments: Seq<Seq<char>>,
    pub line: usize,
    pub style: SymbolStyle,
    pub trait_segments: Option<usize>,
}

impl DeepView for WrittenPath {
    type V = WrittenPathView;

    open spec fn deep_view(&self) -> WrittenPathView {
        WrittenPathView {
            leading_colon: self.leading_colon,
            segments: self.segments.deep_view(),
            line: self.line,
            style: self.style,
            trait_segments: self.trait_segments,
        }
    }
}

/// The tree of names that a `use` item brings in.
#[derive(Debug)]
pub enum ImportTree {
    Path { ident: String, tree: Box<ImportTree> },
    Name { ident: String, line: usize },
    Rename { ident: String, line: usize },
    Glob { line: usize },
    Group { items: Vec<ImportTree> },
}

/// The mathematical value of a [`ImportTree`].
pub enum ImportTreeView {
    Path { ident: Seq<char>, tree: Box<ImportTreeView> },
    Name { ident: Seq<char>, line: usize },
    Rename { ident: Seq<char>, line: usize },
    Glob { line: usize },
    Group { items: Seq<ImportTreeView> },
}

/// The mathematical value of a tree of names.
pub open spec fn import_tree_view(tree: ImportTree) -> ImportTreeView
    decreases tree,
{
    match tree {
        ImportTree::Path { ident, tree: inner } => ImportTreeView::Path {
            ident: ident@,
            tree: Box::new(import_tree_view(*inner)),
        },
        ImportTree::Name { ident, line } => ImportTreeView::Name { ident: ident@, line },
        ImportTree::Rename { ident, line } => ImportTreeView::Rename { ident: ident@, line },
        ImportTree::Glob { line } => ImportTreeView::Glob { line },
        ImportTree::Group { items } => ImportTreeView::Group { items: import_trees_view(items@) },
    }
}

/// The mathematical values of several trees of names.
pub open spec fn import_trees_view(items: Seq<ImportTree>) -> Seq<ImportTreeView>
    decreases items,
{
    if items.len() == 0 {
        seq![]
    } else {
        import_trees_view(items.drop_last()).push(import_tree_view(items.last()))
    }
}

impl DeepView for ImportTree {
    type V = ImportTreeView;

    open spec fn deep_view(&self) -> ImportTreeView {
        import_tree_view(*self)
    }
}

/// One step of a walk over a file that looks for names from elsewhere.
#[derive(Debug)]
pub enum NameEvent {
    Path(WrittenPath),
    ExternCrate { ident: String, line: usize },
    Use(ImportTree),
    EnterModule { ident: String },
    LeaveModule,
}

/// The mathematical value of a [`NameEvent`].
pub enum NameEventView {
    Path(WrittenPathView),
    ExternCrate { ident: Seq<char>, line: usize },
    Use(ImportTreeView),
    EnterModule { ident: Seq<char> },
    LeaveModule,
}

impl DeepView for NameEvent {
    type V = NameEventView;

    open spec fn deep_view(&self) -> NameEventView {
        match self {
            NameEvent::Path(path) => NameEventView::Path(path.deep_view()),
            NameEvent::ExternCrate { ident, line } => NameEventView::ExternCrate {
                ident: ident@,
                line: *line,
            },
            NameEvent::Use(tree) => NameEventView::Use(tree.deep_view()),
            NameEvent::EnterModule { ident } => NameEventView::EnterModule { ident: ident@ },
            NameEvent::LeaveModule => NameEventView::LeaveModule,
        }
    }
}

/// An attribute: its name, where that is a single identifier, and its argument, where that is a
/// single string literal in parentheses.
#[derive(Debug)]
pub struct WrittenAttribute {
    pub name: Option<String>,
    pub argument: Option<String>,
}

/// The mathematical value of a [`WrittenAttribute`].
pub struct WrittenAttributeView {
    pub name: Option<Seq<char>>,
    pub argument: Option<Seq<char>>,
}

impl DeepView for WrittenAttribute {
    type V = WrittenAttributeView;

    open spec fn deep_view(&self) -> WrittenAttributeView {
        WrittenAttributeView {
            name: self.name.deep_view(),
            argument: self.argument.deep_view(),
        }
    }
}

/// One step of a walk over a file that looks for modules in files of their own.
#[derive(Debug)]
pub enum ModuleEvent {
    Enter { ident: String },
    Leave,
    Declare { ident: String, attributes: Vec<WrittenAttribute> },
}

/// The mathematical value of a [`ModuleEvent`].
pub enum ModuleEventView {
    Enter { ident: Seq<char> },
    Leave,
    Declare { ident: Seq<char>, attributes: Seq<WrittenAttributeView> },
}

impl DeepView for ModuleEvent {
    type V = ModuleEventView;

    open spec fn deep_view(&self) -> ModuleEventView {
        match self {
            ModuleEvent::Enter { ident } => ModuleEventView::Enter { ident: ident@ },
            ModuleEvent::Leave => ModuleEventView::Leave,
            ModuleEvent::Declare { ident, attributes } => ModuleEventView::Declare {
                ident: ident@,
                attributes: attributes.deep_view(),
            },
        }
    }
}

/// A parsed source file, as the two walks over it.
#[derive(Debug)]
pub struct SourceFile {
    pub names: Vec<NameEvent>,
    pub modules: Vec<ModuleEvent>,
}

/// The mathematical value of a [`SourceFile`].
pub struct SourceFileView {
    pub names: Seq<NameEventView>,
    pub modules: Seq<ModuleEventView>,
}

impl DeepView for SourceFile {
    type V = SourceFileView;

    open spec fn deep_view(&self) -> SourceFileView {
        SourceFileView { names: self.names.deep_view(), modules: self.modules.deep_view() }
    }
}

/// An attribute of `syn`, with all that stands in it.
#[verifier::external_type_specification]
#[verifier::external_body]
pub struct ExSynAttribute(syn::Attribute);

/// A path in an expression, of `syn`.
#[verifier::external_type_specification]
#[verifier::external_body]
pub struct ExSynExprPath(syn::ExprPath);

/// An `extern crate` item of `syn`.
#[verifier::external_type_specification]
#[verifier::external_body]
pub struct ExSynItemExternCrate(syn::ItemExternCrate);

/// A `use` item of `syn`.
#[verifier::external_type_specification]
#[verifier::external_body]
pub struct ExSynItemUse(syn::ItemUse);

/// A `mod` item of `syn`.
#[verifier::external_type_specification]
#[verifier::external_body]
pub struct ExSynItemMod(syn::ItemMod);

/// A macro call of `syn`.
#[verifier::external_type_specification]
#[verifier::external_body]
pub struct ExSynMacro(syn::Macro);

/// A path in a type, of `syn`.
#[verifier::external_type_specification]
#[verifier::external_body]
pub struct ExSynTypePath(syn::TypePath);

/// A path of `syn`.
#[verifier::external_type_specification]
#[verifier::external_body]
pub struct ExSynPath(syn::Path);

/// The `<T as ...>` before a path of `syn`.
#[verifier::external_type_specification]
#[verifier::external_body]
pub struct ExSynQSelf(syn::QSelf);

/// The tree of a `use` item of `syn`.
#[verifier::external_type_specification]
#[verifier::external_body]
pub struct ExSynUseTree(syn::UseTree);

/// Takes the plain values out of a `syn::Path` and the `syn::QSelf` beside it, if there is one.
/// The line is where `Spanned::span` starts. Nothing is promised of the result.
#[verifier::external_body]
fn written_path(path: &syn::Path, qself: Option<&syn::QSelf>, style: SymbolStyle) -> (written:
    WrittenPath) {
    WrittenPath {
        leading_colon: path.leading_colon.is_some(),
        segments: path.segments.iter().map(|segment| segment.ident.to_string()).collect(),
        line: path.span().start().line,
        style,
        trait_segments: qself.map(|qself| qself.position),
    }
}

/// Takes the plain values out of a `syn::UseTree`, variant by variant. Nothing is promised of the
/// result.
#[verifier::external_body]
fn import_tree(tree: &syn::UseTree) -> (plain: ImportTree) {
    match tree {
        syn::UseTree::Path(path) => ImportTree::Path {
            ident: path.ident.to_string(), tree: Box::new(import_tree(&path.tree)),
        },
        syn::UseTree::Name(name) => ImportTree::Name {
            ident: name.ident.to_string(), line: name.ident.span().start().line,
        },
        syn::UseTree::Rename(name) => ImportTree::Rename {
            ident: name.ident.to_string(), line: name.ident.span().start().line,
        },
        syn::UseTree::Glob(glob) => ImportTree::Glob { line: glob.star_token.span().start().line },
        syn::UseTree::Group(group) => ImportTree::Group {
            items: group.items.iter().map(|item| import_tree(item)).collect(),
        },
    }
}

/// Takes the plain values out of a `syn::Attribute`: `Path::get_ident` gives the name, and
/// `Attribute::parse_args` the string literal. Nothing is promised of the result.
#[verifier::external_body]
fn written_attribute(attribute: &syn::Attribute) -> (written: WrittenAttribute) {
    WrittenAttribute {
        name: attribute.path().get_ident().map(|ident| ident.to_string()),
        argument: attribute.parse_args::<syn::LitStr>().ok().map(|literal| literal.value()),
    }
}

/// Writes down the names that `syn` meets on its walk over a file.
struct NameCollector {
    events: Vec<NameEvent>,
}

impl<'ast> Visit<'ast> for NameCollector {
    /// An attribute is a path, and `syn::visit::visit_attribute` goes on inside it.
    #[verifier::external_body]
    fn visit_attribute(&mut self, attribute: &'ast syn::Attribute) {
        self.events.push(NameEvent::Path(written_path(attribute.path(), None, SymbolStyle::Plain)));
        syn::visit::visit_attribute(self, attribute);
    }

    /// A path in an expression; `syn::visit::visit_expr_path` goes on inside it.
    #[verifier::external_body]
    fn visit_expr_path(&mut self, expr: &'ast syn::ExprPath) {
        self.events.push(
            NameEvent::Path(written_path(&expr.path, expr.qself.as_ref(), SymbolStyle::Plain)),
        );
        syn::visit::visit_expr_path(self, expr);
    }

    /// The name of the crate, and `syn::visit::visit_item_extern_crate` goes on inside the item.
    #[verifier::external_body]
    fn visit_item_extern_crate(&mut self, item: &'ast syn::ItemExternCrate) {
        self.events.push(
            NameEvent::ExternCrate {
                ident: item.ident.to_string(),
                line: item.ident.span().start().line,
            },
        );
        syn::visit::visit_item_extern_crate(self, item);
    }

    /// The tree of an import, inside which the walk does not go on.
    #[verifier::external_body]
    fn visit_item_use(&mut self, item: &'ast syn::ItemUse) {
        self.events.push(NameEvent::Use(import_tree(&item.tree)));
    }

    /// An inline module is entered, its items are visited with `Visit::visit_item`, and it is left.
    #[verifier::external_body]
    fn visit_item_mod(&mut self, item: &'ast syn::ItemMod) {
        if let Some((_, items)) = &item.content {
            self.events.push(NameEvent::EnterModule { ident: item.ident.to_string() });
            for inner in items {
                self.visit_item(inner);
            }
            self.events.push(NameEvent::LeaveModule);
        }
    }

    /// The path of a macro call; `syn::visit::visit_macro` goes on inside it.
    #[verifier::external_body]
    fn visit_macro(&mut self, mac: &'ast syn::Macro) {
        self.events.push(NameEvent::Path(written_path(&mac.path, None, SymbolStyle::Macro)));
        syn::visit::visit_macro(self, mac);
    }

    /// A path in a type; `syn::visit::visit_type_path` goes on inside it.
    #[verifier::external_body]
    fn visit_type_path(&mut self, ty: &'ast syn::TypePath) {
        self.events.push(
            NameEvent::Path(written_path(&ty.path, ty.qself.as_ref(), SymbolStyle::Plain)),
        );
        syn::visit::visit_type_path(self, ty);
    }
}

/// Writes down the modules that `syn` meets on its walk over a file.
struct ModuleCollector {
    events: Vec<ModuleEvent>,
}

impl<'ast> Visit<'ast> for ModuleCollector {
    /// An inline module is entered and left as above, and any other is declared.
    #[verifier::external_body]
    fn visit_item_mod(&mut self, item: &'ast syn::ItemMod) {
        let ident = item.ident.to_string();
        if let Some((_, items)) = &item.content {
            self.events.push(ModuleEvent::Enter { ident });
            for inner in items {
                self.visit_item(inner);
            }
            self.events.push(ModuleEvent::Leave);
        } else {
            let attributes = item.attrs.iter().map(written_attribute).collect();
            self.events.push(ModuleEvent::Declare { ident, attributes });
        }
    }
}

/// What `syn` makes of a source text: the two walks over its syntax tree, or the message of the
/// error that the text is refused with.
pub uninterp spec fn parsed_source(source: Seq<char>) -> Result<SourceFileView, Seq<char>>;

/// `result` is `expected`, value for value.
pub open spec fn parse_result(
    result: Result<SourceFile, String>,
    expected: Result<SourceFileView, Seq<char>>,
) -> bool {
    match (result, expected) {
        (Ok(file), Ok(view)) => file.deep_view() == view,
        (Err(message), Err(text)) => message@ == text,
        _ => false,
    }
}

/// The greatest number of characters in a source text that can be parsed: an eighth of the
/// positions that there are. A text takes a position for each character and one more, and `syn`
/// lexes tuple fields such as those in `t.0.1` and negative literals again, some of them more than
/// once, which takes fewer than seven further positions for each character of theirs.
pub const LONGEST_SOURCE: usize = 536870911;

/// Parses a source text with `syn::parse_file` and walks over the tree twice with
/// `Visit::visit_file`. The result is a function of the text, named `parsed_source`; what it is on
/// a given text is not stated. Before that, `proc_macro2::extra::invalidate_current_thread_spans`
/// empties the table in which each thread keeps the positions of what it has parsed, so that the
/// result does not depend on earlier texts and positions do not run out. Positions that the thread
/// held before the call are void after it. The call is not for use inside a procedural macro, where
/// there is no such table, and a text nested more deeply than the call stack allows ends the
/// process.
#[verifier::external_body]
pub(crate) fn parse_file(source: &str) -> (result: Result<SourceFile, String>)
    requires
        source@.len() <= LONGEST_SOURCE,
    ensures
        parse_result(result, parsed_source(source@)),
{
    proc_macro2::extra::invalidate_current_thread_spans();
    match syn::parse_file(source) {
        Ok(file) => {
            let mut names = NameCollector { events: Vec::new() };
            names.visit_file(&file);
            let mut modules = ModuleCollector { events: Vec::new() };
            modules.visit_file(&file);
            Ok(SourceFile { names: names.events, modules: modules.events })
        },
        Err(error) => Err(error.to_string()),
    }
}

} // verus!
