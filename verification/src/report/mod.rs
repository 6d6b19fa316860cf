pub mod lexer;
pub mod mir;
pub mod parser;

use vstd::prelude::*;
use vstd::string::*;

use crate::files::{FileId, Span};

verus! {

/// Diagnostics collected while reading and lowering a program.
#[derive(Clone, Debug)]
pub struct Reports {
    reports: Vec<Report>,
}

/// One diagnostic.
#[derive(Clone, Debug)]
pub struct Report {
    pub level: ReportLevel,
    pub span: Span,
    pub title: String,
    pub annotations: Vec<ReportAnnotation>,
    pub helps: Vec<ReportHelp>,
}

#[derive(Clone, Copy, Debug, PartialEq, Eq, Structural)]
pub enum ReportLevel {
    Error,
    Warning,
    Info,
}

/// A marked span of source text.
#[derive(Clone, Debug)]
pub struct ReportAnnotation {
    pub kind: ReportAnnotationKind,
    pub span: Span,
    pub label: Option<String>,
}

#[derive(Clone, Copy, Debug, PartialEq, Eq, Structural)]
pub enum ReportAnnotationKind {
    Primary,
    Context,
}

/// A suggestion, made of edits to the source.
#[derive(Clone, Debug)]
pub struct ReportHelp {
    pub title: String,
    pub patches: Vec<ReportPatch>,
}

/// Replace the text in `span` by `replacement`.
#[derive(Clone, Debug)]
pub struct ReportPatch {
    pub span: Span,
    pub replacement: String,
}

/// The content of an annotation, with its label as chars.
pub struct AnnotationView {
    pub kind: ReportAnnotationKind,
    pub span: Span,
    pub label: Option<Seq<char>>,
}

pub struct PatchView {
    pub span: Span,
    pub replacement: Seq<char>,
}

pub struct HelpView {
    pub title: Seq<char>,
    pub patches: Seq<PatchView>,
}

pub struct ReportView {
    pub level: ReportLevel,
    pub span: Span,
    pub title: Seq<char>,
    pub annotations: Seq<AnnotationView>,
    pub helps: Seq<HelpView>,
}

impl View for ReportAnnotation {
    type V = AnnotationView;

    open spec fn view(&self) -> AnnotationView {
        AnnotationView {
            kind: self.kind,
            span: self.span,
            label: match self.label {
                Some(l) => Some(l@),
                None => None,
            },
        }
    }
}

impl View for ReportPatch {
    type V = PatchView;

    open spec fn view(&self) -> PatchView {
        PatchView { span: self.span, replacement: self.replacement@ }
    }
}

impl View for ReportHelp {
    type V = HelpView;

    open spec fn view(&self) -> HelpView {
        HelpView { title: self.title@, patches: self.patches@.map_values(|p: ReportPatch| p@) }
    }
}

impl View for Report {
    type V = ReportView;

    open spec fn view(&self) -> ReportView {
        ReportView {
            level: self.level,
            span: self.span,
            title: self.title@,
            annotations: self.annotations@.map_values(|a: ReportAnnotation| a@),
            helps: self.helps@.map_values(|h: ReportHelp| h@),
        }
    }
}

impl View for Reports {
    type V = Seq<Report>;

    closed spec fn view(&self) -> Seq<Report> {
        self.reports@
    }
}

/// A primary annotation of `span`, without label.
pub open spec fn primary_view(span: Span) -> AnnotationView {
    AnnotationView { kind: ReportAnnotationKind::Primary, span, label: None }
}

/// A context annotation of `span` with a label.
pub open spec fn context_view(span: Span, label: Seq<char>) -> AnnotationView {
    AnnotationView { kind: ReportAnnotationKind::Context, span, label: Some(label) }
}

pub open spec fn patch_view(span: Span, replacement: Seq<char>) -> PatchView {
    PatchView { span, replacement }
}

/// The number of reports of level `Error` in `rs`.
pub open spec fn error_count(rs: Seq<Report>) -> nat
    decreases rs.len(),
{
    if rs.len() == 0 {
        0
    } else {
        error_count(rs.drop_last()) + if rs.last().level == ReportLevel::Error { 1nat } else { 0nat }
    }
}

/// Whether some report in `rs` is an error.
pub open spec fn has_error(rs: Seq<Report>) -> bool {
    exists|i: int| 0 <= i < rs.len() && rs[i].level == ReportLevel::Error
}

pub proof fn lemma_error_count_positive(rs: Seq<Report>)
    ensures
        (error_count(rs) > 0) == has_error(rs),
    decreases rs.len(),
{
    if rs.len() > 0 {
        lemma_error_count_positive(rs.drop_last());
        if has_error(rs.drop_last()) {
            let i = choose|i: int| 0 <= i < rs.drop_last().len() && rs.drop_last()[i].level == ReportLevel::Error;
            assert(rs[i] == rs.drop_last()[i]);
        }
        if has_error(rs) {
            let i = choose|i: int| 0 <= i < rs.len() && rs[i].level == ReportLevel::Error;
            if i < rs.len() - 1 {
                assert(rs.drop_last()[i] == rs[i]);
            }
        }
        if rs.last().level == ReportLevel::Error {
            assert(rs[rs.len() - 1].level == ReportLevel::Error);
        }
    }
}

/// `after` starts with the reports of `before`.
pub open spec fn kept(before: Seq<Report>, after: Seq<Report>) -> bool {
    &&& before.len() <= after.len()
    &&& forall|i: int| #![trigger after[i]] #![trigger before[i]] 0 <= i < before.len() ==> after[i] == before[i]
}

/// `after` is `before` followed by reports whose views are `added`.
pub open spec fn appended(before: Seq<Report>, after: Seq<Report>, added: Seq<ReportView>) -> bool {
    &&& after.len() == before.len() + added.len()
    &&& after.subrange(0, before.len() as int) == before
    &&& forall|i: int| before.len() <= i < after.len() ==> #[trigger] after[i]@ == added[i - before.len()]
}

/// Whether one of `rs` is an error.
pub open spec fn has_error_view(rs: Seq<ReportView>) -> bool {
    exists|i: int| 0 <= i < rs.len() && rs[i].level == ReportLevel::Error
}

pub proof fn lemma_appended_nothing(rs: Seq<Report>)
    ensures
        appended(rs, rs, Seq::empty()),
{
    assert(rs.subrange(0, rs.len() as int) =~= rs);
}

pub proof fn lemma_appended_push(rs: Seq<Report>, r: Report)
    ensures
        appended(rs, rs.push(r), seq![r@]),
{
    assert(rs.push(r).subrange(0, rs.len() as int) =~= rs);
}

pub proof fn lemma_appended_trans(a: Seq<Report>, b: Seq<Report>, c: Seq<Report>, x: Seq<ReportView>, y: Seq<ReportView>)
    requires
        appended(a, b, x),
        appended(b, c, y),
    ensures
        appended(a, c, x + y),
{
    assert(c.subrange(0, a.len() as int) =~= b.subrange(0, a.len() as int));
    assert forall|i: int| a.len() <= i < c.len() implies #[trigger] c[i]@ == (x + y)[i - a.len()] by {
        if i < b.len() {
            assert(c[i] == c.subrange(0, b.len() as int)[i]);
            assert(b[i]@ == x[i - a.len()]);
        }
    }
}

impl ReportAnnotation {
    pub fn primary(span: Span) -> (a: Self)
        ensures
            a@ == primary_view(span),
    {
        ReportAnnotation { kind: ReportAnnotationKind::Primary, span, label: None }
    }

    pub fn context(span: Span, label: &str) -> (a: Self)
        ensures
            a@ == context_view(span, label@),
    {
        ReportAnnotation { kind: ReportAnnotationKind::Context, span, label: Some(String::from_str(label)) }
    }
}

impl ReportHelp {
    pub fn new(title: &str) -> (h: Self)
        ensures
            h@.title == title@,
            h@.patches == Seq::<PatchView>::empty(),
    {
        let h = ReportHelp { title: String::from_str(title), patches: Vec::new() };
        assert(h@.patches =~= Seq::<PatchView>::empty());
        h
    }

    pub fn with_patch(self, span: Span, replacement: &str) -> (h: Self)
        ensures
            h@.title == self@.title,
            h@.patches == self@.patches.push(patch_view(span, replacement@)),
    {
        let mut h = self;
        h.patches.push(ReportPatch { span, replacement: String::from_str(replacement) });
        assert(h@.patches =~= self@.patches.push(patch_view(span, replacement@)));
        h
    }
}

impl Reports {
    pub fn new() -> (r: Self)
        ensures
            r@ == Seq::<Report>::empty(),
    {
        Reports { reports: Vec::new() }
    }

    /// Adds a report.
    pub fn emit(&mut self, report: Report)
        ensures
            final(self)@ == old(self)@.push(report),
            kept(old(self)@, final(self)@),
            final(self)@[old(self)@.len() as int] == report,
    {
        self.reports.push(report);
    }

    /// Whether some report is an error.
    pub fn has_errors(&self) -> (r: bool)
        ensures
            r == has_error(self@),
    {
        proof {
            lemma_error_count_positive(self@);
        }
        self.count_errors() != 0
    }

    /// The number of reports of level `Error`.
    fn count_errors(&self) -> (n: usize)
        ensures
            n == error_count(self@),
    {
        let mut n: usize = 0;
        let mut i: usize = 0;
        while i < self.reports.len()
            invariant
                i <= self.reports@.len(),
                n == error_count(self.reports@.take(i as int)),
                n <= i,
            decreases self.reports@.len() - i,
        {
            assert(self.reports@.take(i + 1).drop_last() =~= self.reports@.take(i as int));
            if self.reports[i].level == ReportLevel::Error {
                n = n + 1;
            }
            i = i + 1;
        }
        assert(self.reports@.take(i as int) =~= self.reports@);
        n
    }

    /// A mark to come back to with `restore`: the number of reports so far.
    pub fn state(&self) -> (n: usize)
        ensures
            n == self@.len(),
    {
        self.reports.len()
    }

    /// Drops the reports emitted after `count` reports.
    pub fn restore(&mut self, count: usize)
        ensures
            final(self)@ == (if count < old(self)@.len() { old(self)@.take(count as int) } else { old(self)@ }),
    {
        if count < self.reports.len() {
            self.reports.truncate(count);
        }
    }

    /// The reports, in the order they were emitted.
    pub fn reports(&self) -> (r: &Vec<Report>)
        ensures
            r@ == self@,
    {
        &self.reports
    }
}

impl Default for Reports {
    fn default() -> (r: Self)
        ensures
            r@ == Seq::<Report>::empty(),
    {
        Reports { reports: Vec::new() }
    }
}

/// The annotations of a report that fall in one file, in report order.
#[derive(Clone, Debug)]
pub struct FileAnnotations {
    pub fid: FileId,
    pub annotations: Vec<ReportAnnotation>,
}

/// The patches of a help that fall in one file, in help order.
#[derive(Clone, Debug)]
pub struct FilePatches {
    pub fid: FileId,
    pub patches: Vec<ReportPatch>,
}

/// The annotations of `anns` in the file `fid`, in order.
pub open spec fn annotations_in(anns: Seq<AnnotationView>, fid: FileId) -> Seq<AnnotationView>
    decreases anns.len(),
{
    if anns.len() == 0 {
        Seq::empty()
    } else if anns.last().span.fid == fid {
        annotations_in(anns.drop_last(), fid).push(anns.last())
    } else {
        annotations_in(anns.drop_last(), fid)
    }
}

pub open spec fn patches_in(patches: Seq<PatchView>, fid: FileId) -> Seq<PatchView>
    decreases patches.len(),
{
    if patches.len() == 0 {
        Seq::empty()
    } else if patches.last().span.fid == fid {
        patches_in(patches.drop_last(), fid).push(patches.last())
    } else {
        patches_in(patches.drop_last(), fid)
    }
}

/// The files of `fids`, each once, in the order they first appear.
pub open spec fn distinct_files(fids: Seq<FileId>) -> Seq<FileId>
    decreases fids.len(),
{
    if fids.len() == 0 {
        Seq::empty()
    } else if distinct_files(fids.drop_last()).contains(fids.last()) {
        distinct_files(fids.drop_last())
    } else {
        distinct_files(fids.drop_last()).push(fids.last())
    }
}

impl ReportAnnotation {
    /// A copy with the same content.
    pub fn duplicate(&self) -> (r: Self)
        ensures
            r@ == self@,
    {
        let label = match &self.label {
            Some(l) => Some(l.clone()),
            None => None,
        };
        ReportAnnotation { kind: self.kind, span: self.span, label }
    }
}

impl ReportPatch {
    /// A copy with the same content.
    pub fn duplicate(&self) -> (r: Self)
        ensures
            r@ == self@,
    {
        ReportPatch { span: self.span, replacement: self.replacement.clone() }
    }
}

impl Report {
    /// The annotations grouped by file: one group per file, in the order in
    /// which the files first appear, each with that file's annotations in
    /// order.
    pub fn group_annotations(&self) -> (r: Vec<FileAnnotations>)
        ensures
            r@.map_values(|g: FileAnnotations| g.fid) == distinct_files(self@.annotations.map_values(|a: AnnotationView| a.span.fid)),
            forall|k: int| 0 <= k < r@.len() ==> (#[trigger] r@[k]).annotations@.map_values(|a: ReportAnnotation| a@) == annotations_in(self@.annotations, r@[k].fid),
    {
        let ghost anns = self@.annotations;
        let mut grouped: Vec<FileAnnotations> = Vec::new();
        let mut i: usize = 0;
        proof {
            assert(anns.map_values(|a: AnnotationView| a.span.fid).take(0) =~= Seq::<FileId>::empty());
            assert(grouped@.map_values(|g: FileAnnotations| g.fid) =~= Seq::<FileId>::empty());
        }
        while i < self.annotations.len()
            invariant
                anns == self@.annotations,
                anns.len() == self.annotations@.len(),
                i <= anns.len(),
                grouped@.map_values(|g: FileAnnotations| g.fid) == distinct_files(anns.map_values(|a: AnnotationView| a.span.fid).take(i as int)),
                forall|k: int| 0 <= k < grouped@.len() ==> (#[trigger] grouped@[k]).annotations@.map_values(|a: ReportAnnotation| a@) == annotations_in(anns.take(i as int), grouped@[k].fid),
            decreases anns.len() - i,
        {
            let annotation = &self.annotations[i];
            let fid = annotation.span.fid;
            let ghost fids = anns.map_values(|a: AnnotationView| a.span.fid);
            let ghost prev = grouped@;
            proof {
                assert(anns[i as int] == annotation@);
                assert(fids.take(i + 1).drop_last() =~= fids.take(i as int));
                assert(fids.take(i + 1).last() == fid);
                assert(anns.take(i + 1).drop_last() =~= anns.take(i as int));
                assert(anns.take(i + 1).last() == annotation@);
            }
            let mut k: usize = 0;
            while k < grouped.len() && grouped[k].fid != fid
                invariant
                    k <= grouped@.len(),
                    forall|j: int| 0 <= j < k ==> (#[trigger] grouped@[j]).fid != fid,
                decreases grouped@.len() - k,
            {
                k = k + 1;
            }
            let copy = annotation.duplicate();
            if k < grouped.len() {
                let mut group = grouped.remove(k);
                group.annotations.push(copy);
                grouped.insert(k, group);
                proof {
                    let gf = prev.map_values(|g: FileAnnotations| g.fid);
                    assert(gf[k as int] == fid);
                    assert(gf.contains(fid));
                    assert(grouped@.map_values(|g: FileAnnotations| g.fid) =~= gf);
                    lemma_distinct_files_unique(fids.take(i as int));
                    assert forall|j: int| 0 <= j < grouped@.len() implies (#[trigger] grouped@[j]).annotations@.map_values(|a: ReportAnnotation| a@) == annotations_in(anns.take(i + 1), grouped@[j].fid) by {
                        if j == k {
                            assert(grouped@[j].annotations@.map_values(|a: ReportAnnotation| a@) =~= prev[j].annotations@.map_values(|a: ReportAnnotation| a@).push(annotation@));
                        } else {
                            assert(grouped@[j] == prev[j]);
                            assert(gf[j] != gf[k as int]);
                            assert(prev[j].fid != fid);
                        }
                    }
                }
            } else {
                let mut annotations = Vec::new();
                annotations.push(copy);
                grouped.push(FileAnnotations { fid, annotations });
                proof {
                    let gf = prev.map_values(|g: FileAnnotations| g.fid);
                    assert(!gf.contains(fid)) by {
                        if gf.contains(fid) {
                            let j = choose|j: int| 0 <= j < gf.len() && gf[j] == fid;
                            assert(prev[j].fid == fid);
                        }
                    }
                    assert(grouped@.map_values(|g: FileAnnotations| g.fid) =~= gf.push(fid));
                    assert(annotations_in(anns.take(i as int), fid) =~= Seq::<AnnotationView>::empty()) by {
                        assert(anns.take(i as int).map_values(|a: AnnotationView| a.span.fid) =~= fids.take(i as int));
                        lemma_annotations_in_absent(anns.take(i as int), fid, gf);
                    }
                    assert forall|j: int| 0 <= j < grouped@.len() implies (#[trigger] grouped@[j]).annotations@.map_values(|a: ReportAnnotation| a@) == annotations_in(anns.take(i + 1), grouped@[j].fid) by {
                        if j == prev.len() {
                            assert(grouped@[j].annotations@.map_values(|a: ReportAnnotation| a@) =~= seq![annotation@]);
                            assert(seq![annotation@] =~= Seq::<AnnotationView>::empty().push(annotation@));
                        } else {
                            assert(grouped@[j] == prev[j]);
                        }
                    }
                }
            }
            i = i + 1;
        }
        proof {
            assert(anns.take(i as int) =~= anns);
            assert(anns.map_values(|a: AnnotationView| a.span.fid).take(i as int) =~= anns.map_values(|a: AnnotationView| a.span.fid));
        }
        grouped
    }

    /// The patches of `help` grouped by file: one group per file, in the
    /// order in which the files first appear, each with that file's patches
    /// in order.
    pub fn group_patches(&self, help: &ReportHelp) -> (r: Vec<FilePatches>)
        ensures
            r@.map_values(|g: FilePatches| g.fid) == distinct_files(help@.patches.map_values(|a: PatchView| a.span.fid)),
            forall|k: int| 0 <= k < r@.len() ==> (#[trigger] r@[k]).patches@.map_values(|a: ReportPatch| a@) == patches_in(help@.patches, r@[k].fid),
    {
        let ghost anns = help@.patches;
        let mut grouped: Vec<FilePatches> = Vec::new();
        let mut i: usize = 0;
        proof {
            assert(anns.map_values(|a: PatchView| a.span.fid).take(0) =~= Seq::<FileId>::empty());
            assert(grouped@.map_values(|g: FilePatches| g.fid) =~= Seq::<FileId>::empty());
        }
        while i < help.patches.len()
            invariant
                anns == help@.patches,
                anns.len() == help.patches@.len(),
                i <= anns.len(),
                grouped@.map_values(|g: FilePatches| g.fid) == distinct_files(anns.map_values(|a: PatchView| a.span.fid).take(i as int)),
                forall|k: int| 0 <= k < grouped@.len() ==> (#[trigger] grouped@[k]).patches@.map_values(|a: ReportPatch| a@) == patches_in(anns.take(i as int), grouped@[k].fid),
            decreases anns.len() - i,
        {
            let patch = &help.patches[i];
            let fid = patch.span.fid;
            let ghost fids = anns.map_values(|a: PatchView| a.span.fid);
            let ghost prev = grouped@;
            proof {
                assert(anns[i as int] == patch@);
                assert(fids.take(i + 1).drop_last() =~= fids.take(i as int));
                assert(fids.take(i + 1).last() == fid);
                assert(anns.take(i + 1).drop_last() =~= anns.take(i as int));
                assert(anns.take(i + 1).last() == patch@);
            }
            let mut k: usize = 0;
            while k < grouped.len() && grouped[k].fid != fid
                invariant
                    k <= grouped@.len(),
                    forall|j: int| 0 <= j < k ==> (#[trigger] grouped@[j]).fid != fid,
                decreases grouped@.len() - k,
            {
                k = k + 1;
            }
            let copy = patch.duplicate();
            if k < grouped.len() {
                let mut group = grouped.remove(k);
                group.patches.push(copy);
                grouped.insert(k, group);
                proof {
                    let gf = prev.map_values(|g: FilePatches| g.fid);
                    assert(gf[k as int] == fid);
                    assert(gf.contains(fid));
                    assert(grouped@.map_values(|g: FilePatches| g.fid) =~= gf);
                    lemma_distinct_files_unique(fids.take(i as int));
                    assert forall|j: int| 0 <= j < grouped@.len() implies (#[trigger] grouped@[j]).patches@.map_values(|a: ReportPatch| a@) == patches_in(anns.take(i + 1), grouped@[j].fid) by {
                        if j == k {
                            assert(grouped@[j].patches@.map_values(|a: ReportPatch| a@) =~= prev[j].patches@.map_values(|a: ReportPatch| a@).push(patch@));
                        } else {
                            assert(grouped@[j] == prev[j]);
                            assert(gf[j] != gf[k as int]);
                            assert(prev[j].fid != fid);
                        }
                    }
                }
            } else {
                let mut patches = Vec::new();
                patches.push(copy);
                grouped.push(FilePatches { fid, patches });
                proof {
                    let gf = prev.map_values(|g: FilePatches| g.fid);
                    assert(!gf.contains(fid)) by {
                        if gf.contains(fid) {
                            let j = choose|j: int| 0 <= j < gf.len() && gf[j] == fid;
                            assert(prev[j].fid == fid);
                        }
                    }
                    assert(grouped@.map_values(|g: FilePatches| g.fid) =~= gf.push(fid));
                    assert(patches_in(anns.take(i as int), fid) =~= Seq::<PatchView>::empty()) by {
                        assert(anns.take(i as int).map_values(|a: PatchView| a.span.fid) =~= fids.take(i as int));
                        lemma_patches_in_absent(anns.take(i as int), fid, gf);
                    }
                    assert forall|j: int| 0 <= j < grouped@.len() implies (#[trigger] grouped@[j]).patches@.map_values(|a: ReportPatch| a@) == patches_in(anns.take(i + 1), grouped@[j].fid) by {
                        if j == prev.len() {
                            assert(grouped@[j].patches@.map_values(|a: ReportPatch| a@) =~= seq![patch@]);
                            assert(seq![patch@] =~= Seq::<PatchView>::empty().push(patch@));
                        } else {
                            assert(grouped@[j] == prev[j]);
                        }
                    }
                }
            }
            i = i + 1;
        }
        proof {
            assert(anns.take(i as int) =~= anns);
            assert(anns.map_values(|a: PatchView| a.span.fid).take(i as int) =~= anns.map_values(|a: PatchView| a.span.fid));
        }
        grouped
    }
}

proof fn lemma_distinct_files_unique(fids: Seq<FileId>)
    ensures
        forall|a: int, b: int| 0 <= a < b < distinct_files(fids).len() ==> distinct_files(fids)[a] != distinct_files(fids)[b],
    decreases fids.len(),
{
    if fids.len() > 0 {
        lemma_distinct_files_unique(fids.drop_last());
        let prev = distinct_files(fids.drop_last());
        if !prev.contains(fids.last()) {
            assert forall|a: int, b: int| 0 <= a < b < distinct_files(fids).len() implies distinct_files(fids)[a] != distinct_files(fids)[b] by {
                if b == prev.len() {
                    assert(distinct_files(fids)[a] == prev[a]);
                }
            }
        }
    }
}

/// A file that is not among the distinct files of some annotations has none
/// of them.
proof fn lemma_annotations_in_absent(anns: Seq<AnnotationView>, fid: FileId, files: Seq<FileId>)
    requires
        files == distinct_files(anns.map_values(|a: AnnotationView| a.span.fid)),
        !files.contains(fid),
    ensures
        annotations_in(anns, fid) == Seq::<AnnotationView>::empty(),
    decreases anns.len(),
{
    if anns.len() > 0 {
        let fids = anns.map_values(|a: AnnotationView| a.span.fid);
        assert(fids.drop_last() =~= anns.drop_last().map_values(|a: AnnotationView| a.span.fid));
        let prev = distinct_files(fids.drop_last());
        assert(fids.last() == anns.last().span.fid);
        if prev.contains(fids.last()) {
            assert(anns.last().span.fid != fid);
        } else {
            assert(files == prev.push(fids.last()));
            assert(files[prev.len() as int] == fids.last());
            assert(anns.last().span.fid != fid);
            assert forall|x: FileId| prev.contains(x) implies files.contains(x) by {
                let j = choose|j: int| 0 <= j < prev.len() && prev[j] == x;
                assert(files[j] == x);
            }
        }
        lemma_annotations_in_absent(anns.drop_last(), fid, prev);
    }
}

/// A file that is not among the distinct files of some patches has none
/// of them.
proof fn lemma_patches_in_absent(pats: Seq<PatchView>, fid: FileId, files: Seq<FileId>)
    requires
        files == distinct_files(pats.map_values(|a: PatchView| a.span.fid)),
        !files.contains(fid),
    ensures
        patches_in(pats, fid) == Seq::<PatchView>::empty(),
    decreases pats.len(),
{
    if pats.len() > 0 {
        let fids = pats.map_values(|a: PatchView| a.span.fid);
        assert(fids.drop_last() =~= pats.drop_last().map_values(|a: PatchView| a.span.fid));
        let prev = distinct_files(fids.drop_last());
        assert(fids.last() == pats.last().span.fid);
        if prev.contains(fids.last()) {
            assert(pats.last().span.fid != fid);
        } else {
            assert(files == prev.push(fids.last()));
            assert(files[prev.len() as int] == fids.last());
            assert(pats.last().span.fid != fid);
            assert forall|x: FileId| prev.contains(x) implies files.contains(x) by {
                let j = choose|j: int| 0 <= j < prev.len() && prev[j] == x;
                assert(files[j] == x);
            }
        }
        lemma_patches_in_absent(pats.drop_last(), fid, prev);
    }
}

/// Once an error has been emitted, the reports have errors, whatever is
/// emitted after it.
pub proof fn law_errors_stay(before: Seq<Report>, error: Report, after: Seq<Report>)
    requires
        error.level == ReportLevel::Error,
    ensures
        has_error(before.push(error) + after),
{
    assert((before.push(error) + after)[before.len() as int] == error);
}

/// Undoing: restoring to a mark taken before some reports were emitted gives
/// back the reports as they were at the mark.
pub proof fn law_restore_undoes_emits(before: Seq<Report>, emitted: Seq<Report>)
    ensures
        ({
            let mark = before.len();
            let after = before + emitted;
            (if mark < after.len() { after.take(mark as int) } else { after }) == before
        }),
{
    let after = before + emitted;
    assert(after.take(before.len() as int) =~= before);
    if before.len() >= after.len() {
        assert(after =~= before);
    }
}

} // verus!
