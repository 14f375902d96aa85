//! Finding the entry points of an OpenGL runtime, and describing the textures
//! that are shared with it.

use crate::text::holds_char;
use vstd::prelude::*;

verus! {

/// What was found of one candidate library.
#[derive(Clone, Copy, Debug, PartialEq, Eq, Structural)]
pub struct LibraryProbe {
    /// The library could be loaded.
    pub loaded: bool,
    /// It has `eglGetProcAddress`.
    pub egl: bool,
    /// It has `glXGetProcAddressARB`.
    pub glx: bool,
}

/// The sources of entry points, by the positions of the candidate libraries.
#[derive(Debug)]
pub struct GlProcResolver {
    /// The libraries that were loaded, in the order of the candidates.
    pub libs: Vec<usize>,
    /// The library whose `eglGetProcAddress` is used.
    pub egl_get_proc: Option<usize>,
    /// The library whose `glXGetProcAddressARB` is used.
    pub glx_get_proc: Option<usize>,
}

/// Where an entry point is asked for.
#[derive(Clone, Copy, Debug, PartialEq, Eq, Structural)]
pub enum LookupSource {
    /// The symbols of a library.
    Library(usize),
    /// The `eglGetProcAddress` of a library.
    Egl(usize),
    /// The `glXGetProcAddressARB` of a library.
    Glx(usize),
}

/// The next step of a lookup.
#[derive(Clone, Copy, Debug, PartialEq, Eq, Structural)]
pub enum LookupStep {
    /// It is over, with this address; zero for none.
    Done(usize),
    /// This source is asked next.
    Ask(LookupSource),
}

/// The libraries that can hold the entry points, the first ones first.
pub open spec fn candidate_names(uses_es: bool) -> Seq<Seq<char>> {
    if uses_es {
        seq!["libGLESv2.so.2"@, "libEGL.so.1"@]
    } else {
        seq!["libGL.so.1"@, "libOpenGL.so.0"@, "libEGL.so.1"@]
    }
}

/// The libraries that can hold the entry points, the first ones first.
pub fn candidates(uses_es: bool) -> (r: Vec<String>)
    ensures
        r@.map_values(|name: String| name@) == candidate_names(uses_es),
{
    let mut names: Vec<String> = Vec::new();
    if uses_es {
        names.push(String::from_str("libGLESv2.so.2"));
        names.push(String::from_str("libEGL.so.1"));
    } else {
        names.push(String::from_str("libGL.so.1"));
        names.push(String::from_str("libOpenGL.so.0"));
        names.push(String::from_str("libEGL.so.1"));
    }
    assert(names@.map_values(|name: String| name@) =~= candidate_names(uses_es));
    names
}

/// The positions of the libraries that were loaded.
pub open spec fn loaded(probes: Seq<LibraryProbe>) -> Seq<usize>
    decreases probes.len(),
{
    if probes.len() == 0 {
        seq![]
    } else if probes.last().loaded {
        loaded(probes.drop_last()).push((probes.len() - 1) as usize)
    } else {
        loaded(probes.drop_last())
    }
}

/// The first position at which `found` holds.
pub open spec fn first_where(
    probes: Seq<LibraryProbe>,
    found: spec_fn(LibraryProbe) -> bool,
) -> Option<usize>
    decreases probes.len(),
{
    if probes.len() == 0 {
        None
    } else {
        match first_where(probes.drop_last(), found) {
            Some(i) => Some(i),
            None => if found(probes.last()) {
                Some((probes.len() - 1) as usize)
            } else {
                None
            },
        }
    }
}

/// The library whose `eglGetProcAddress` is used.
pub open spec fn egl_source(uses_es: bool, probes: Seq<LibraryProbe>) -> Option<usize> {
    if uses_es {
        first_where(probes, |p: LibraryProbe| p.loaded && p.egl)
    } else {
        None
    }
}

/// The library whose `glXGetProcAddressARB` is used.
pub open spec fn glx_source(uses_es: bool, probes: Seq<LibraryProbe>) -> Option<usize> {
    if uses_es {
        None
    } else {
        first_where(probes, |p: LibraryProbe| p.loaded && p.glx)
    }
}

impl GlProcResolver {
    /// The resolver of a context: every library that was loaded, and the first
    /// `eglGetProcAddress` for OpenGL ES or the first `glXGetProcAddressARB`
    /// for desktop OpenGL.
    pub fn new(uses_es: bool, probes: &Vec<LibraryProbe>) -> (r: GlProcResolver)
        ensures
            r.libs@ == loaded(probes@),
            r.egl_get_proc == egl_source(uses_es, probes@),
            r.glx_get_proc == glx_source(uses_es, probes@),
    {
        let mut libs: Vec<usize> = Vec::new();
        let mut egl: Option<usize> = None;
        let mut glx: Option<usize> = None;
        let ghost has_egl = |p: LibraryProbe| p.loaded && p.egl;
        let ghost has_glx = |p: LibraryProbe| p.loaded && p.glx;
        let mut i: usize = 0;
        while i < probes.len()
            invariant
                i <= probes.len(),
                has_egl == (|p: LibraryProbe| p.loaded && p.egl),
                has_glx == (|p: LibraryProbe| p.loaded && p.glx),
                libs@ == loaded(probes@.take(i as int)),
                egl == first_where(probes@.take(i as int), has_egl),
                glx == first_where(probes@.take(i as int), has_glx),
            decreases probes.len() - i,
        {
            let probe: LibraryProbe = probes[i];
            proof {
                assert(probes@.take(i + 1).drop_last() =~= probes@.take(i as int));
                assert(probes@.take(i + 1).last() == probe);
            }
            if probe.loaded {
                if egl.is_none() && probe.egl {
                    egl = Some(i);
                }
                if glx.is_none() && probe.glx {
                    glx = Some(i);
                }
                libs.push(i);
            }
            i = i + 1;
        }
        assert(probes@.take(i as int) =~= probes@);
        GlProcResolver {
            libs,
            egl_get_proc: if uses_es { egl } else { None },
            glx_get_proc: if uses_es { None } else { glx },
        }
    }

    /// The sources in the order they are asked: the libraries themselves, then
    /// what their get-proc-address functions know.
    pub open spec fn sources(self) -> Seq<LookupSource> {
        self.libs@.map_values(|lib: usize| LookupSource::Library(lib)) + match self.egl_get_proc {
            Some(lib) => seq![LookupSource::Egl(lib)],
            None => seq![],
        } + match self.glx_get_proc {
            Some(lib) => seq![LookupSource::Glx(lib)],
            None => seq![],
        }
    }

    /// The step of a lookup after `answered` sources, the last of which gave
    /// `last`.
    pub open spec fn step(self, name: Seq<char>, answered: nat, last: usize) -> LookupStep {
        if name.contains('\0') {
            LookupStep::Done(0)
        } else if answered > 0 && last != 0 {
            LookupStep::Done(last)
        } else if answered < self.sources().len() {
            LookupStep::Ask(self.sources()[answered as int])
        } else {
            LookupStep::Done(0)
        }
    }

    /// The next step in resolving `name` to an entry point after `answered`
    /// sources, the last of which gave `last`. A name with a zero character in
    /// it is nowhere.
    pub fn load(&self, name: &str, answered: usize, last: usize) -> (r: LookupStep)
        ensures
            r == self.step(name@, answered as nat, last),
    {
        if holds_char(name, '\0') {
            LookupStep::Done(0)
        } else {
            self.lookup(answered, last)
        }
    }

    /// The next step for a name that a symbol can have.
    fn lookup(&self, answered: usize, last: usize) -> (r: LookupStep)
        ensures
            forall|name: Seq<char>|
                !name.contains('\0') ==> r == #[trigger] self.step(name, answered as nat, last),
    {
        if answered > 0 && last != 0 {
            return LookupStep::Done(last);
        }
        let count: usize = self.libs.len();
        if answered < count {
            return LookupStep::Ask(LookupSource::Library(self.libs[answered]));
        }
        let rest: usize = answered - count;
        match (self.egl_get_proc, self.glx_get_proc) {
            (Some(egl), Some(glx)) => {
                if rest == 0 {
                    LookupStep::Ask(LookupSource::Egl(egl))
                } else if rest == 1 {
                    LookupStep::Ask(LookupSource::Glx(glx))
                } else {
                    LookupStep::Done(0)
                }
            },
            (Some(egl), None) => {
                if rest == 0 {
                    LookupStep::Ask(LookupSource::Egl(egl))
                } else {
                    LookupStep::Done(0)
                }
            },
            (None, Some(glx)) => {
                if rest == 0 {
                    LookupStep::Ask(LookupSource::Glx(glx))
                } else {
                    LookupStep::Done(0)
                }
            },
            (None, None) => LookupStep::Done(0),
        }
    }
}

/// What a lookup comes to where the sources, asked in order from the `k`th on,
/// would answer `answers`.
pub open spec fn outcome(
    resolver: GlProcResolver,
    name: Seq<char>,
    answers: Seq<usize>,
    k: nat,
) -> usize
    decreases answers.len() - k + 1,
{
    let last = if 0 < k <= answers.len() {
        answers[k - 1]
    } else {
        0
    };
    match resolver.step(name, k, last) {
        LookupStep::Done(address) => address,
        LookupStep::Ask(_) => if k < answers.len() {
            outcome(resolver, name, answers, k + 1)
        } else {
            0
        },
    }
}

/// The first address that is one.
pub open spec fn first_address(answers: Seq<usize>) -> usize
    decreases answers.len(),
{
    if answers.len() == 0 {
        0
    } else if answers[0] != 0 {
        answers[0]
    } else {
        first_address(answers.drop_first())
    }
}

/// A lookup gives the first address that any source knows, in the order of the
/// sources, and nothing for a name that no symbol can have.
pub proof fn lemma_lookup_takes_the_first(
    resolver: GlProcResolver,
    name: Seq<char>,
    answers: Seq<usize>,
)
    requires
        answers.len() == resolver.sources().len(),
    ensures
        outcome(resolver, name, answers, 0) == if name.contains('\0') {
            0
        } else {
            first_address(answers)
        },
{
    if !name.contains('\0') {
        lemma_lookup_from(resolver, name, answers, 0);
        assert(answers.skip(0) =~= answers);
    }
}

proof fn lemma_lookup_from(
    resolver: GlProcResolver,
    name: Seq<char>,
    answers: Seq<usize>,
    k: nat,
)
    requires
        answers.len() == resolver.sources().len(),
        !name.contains('\0'),
        k <= answers.len(),
        k > 0 ==> answers[k - 1] == 0,
    ensures
        outcome(resolver, name, answers, k) == first_address(answers.skip(k as int)),
    decreases answers.len() - k,
{
    if k < answers.len() {
        assert(answers.skip(k as int)[0] == answers[k as int]);
        assert(answers.skip(k as int).drop_first() =~= answers.skip((k + 1) as int));
        if answers[k as int] == 0 {
            lemma_lookup_from(resolver, name, answers, k + 1);
        } else {
            reveal_with_fuel(outcome, 2);
        }
    }
}

/// The formats of a texture that can be shared with the runtime.
#[derive(Clone, Copy, Debug, PartialEq, Eq, Structural)]
pub enum FramebufferFormat {
    Rgba8Unorm,
    Rgba8UnormSrgb,
    Rgba16Float,
    Rgb10a2Unorm,
}

/// A texture format in the terms of OpenGL.
#[derive(Clone, Copy, Debug, PartialEq, Eq, Structural)]
pub struct TextureFormatDesc {
    pub internal: u32,
    pub external: u32,
    pub data_type: u32,
}

/// `glow::RGBA8`.
#[verifier::external_body]
fn rgba8() -> (r: u32)
    ensures
        r == 0x8058,
{
    glow::RGBA8
}

/// `glow::SRGB8_ALPHA8`.
#[verifier::external_body]
fn srgb8_alpha8() -> (r: u32)
    ensures
        r == 0x8c43,
{
    glow::SRGB8_ALPHA8
}

/// `glow::RGBA16F`.
#[verifier::external_body]
fn rgba16f() -> (r: u32)
    ensures
        r == 0x881a,
{
    glow::RGBA16F
}

/// `glow::RGB10_A2`.
#[verifier::external_body]
fn rgb10_a2() -> (r: u32)
    ensures
        r == 0x8059,
{
    glow::RGB10_A2
}

/// `glow::RGBA`.
#[verifier::external_body]
fn rgba() -> (r: u32)
    ensures
        r == 0x1908,
{
    glow::RGBA
}

/// `glow::UNSIGNED_BYTE`.
#[verifier::external_body]
fn unsigned_byte() -> (r: u32)
    ensures
        r == 0x1401,
{
    glow::UNSIGNED_BYTE
}

/// `glow::HALF_FLOAT`.
#[verifier::external_body]
fn half_float() -> (r: u32)
    ensures
        r == 0x140b,
{
    glow::HALF_FLOAT
}

/// `glow::UNSIGNED_INT_2_10_10_10_REV`.
#[verifier::external_body]
fn unsigned_int_2_10_10_10_rev() -> (r: u32)
    ensures
        r == 0x8368,
{
    glow::UNSIGNED_INT_2_10_10_10_REV
}

/// What OpenGL calls a texture format: its sized format, its pixel format and
/// the type of its data.
pub open spec fn format_desc(format: FramebufferFormat) -> TextureFormatDesc {
    match format {
        FramebufferFormat::Rgba8Unorm => TextureFormatDesc {
            internal: 0x8058,
            external: 0x1908,
            data_type: 0x1401,
        },
        FramebufferFormat::Rgba8UnormSrgb => TextureFormatDesc {
            internal: 0x8c43,
            external: 0x1908,
            data_type: 0x1401,
        },
        FramebufferFormat::Rgba16Float => TextureFormatDesc {
            internal: 0x881a,
            external: 0x1908,
            data_type: 0x140b,
        },
        FramebufferFormat::Rgb10a2Unorm => TextureFormatDesc {
            internal: 0x8059,
            external: 0x1908,
            data_type: 0x8368,
        },
    }
}

/// What OpenGL calls a texture format.
pub fn texture_format_desc(format: FramebufferFormat) -> (r: TextureFormatDesc)
    ensures
        r == format_desc(format),
{
    let (internal, data_type) = match format {
        FramebufferFormat::Rgba8Unorm => (rgba8(), unsigned_byte()),
        FramebufferFormat::Rgba8UnormSrgb => (srgb8_alpha8(), unsigned_byte()),
        FramebufferFormat::Rgba16Float => (rgba16f(), half_float()),
        FramebufferFormat::Rgb10a2Unorm => (rgb10_a2(), unsigned_int_2_10_10_10_rev()),
    };
    TextureFormatDesc { internal, external: rgba(), data_type }
}

/// The libraries of a resolver are those that were loaded, each once and in the
/// order of the candidates.
pub proof fn lemma_loaded_libraries_in_order(probes: Seq<LibraryProbe>, i: usize)
    requires
        probes.len() <= usize::MAX,
    ensures
        loaded(probes).contains(i) <==> i < probes.len() && probes[i as int].loaded,
        forall|a: int, b: int|
            0 <= a < b < loaded(probes).len() ==> (#[trigger] loaded(probes)[a])
                < #[trigger] loaded(probes)[b],
        forall|a: int| 0 <= a < loaded(probes).len() ==> (#[trigger] loaded(probes)[a])
            < probes.len(),
    decreases probes.len(),
{
    if probes.len() > 0 {
        let before = loaded(probes.drop_last());
        let after = loaded(probes);
        lemma_loaded_libraries_in_order(probes.drop_last(), i);
        if probes.last().loaded {
            assert(after =~= before.push((probes.len() - 1) as usize));
            if before.contains(i) {
                let k = choose|k: int| 0 <= k < before.len() && before[k] == i;
                assert(after[k] == i);
            }
            assert(after[before.len() as int] == probes.len() - 1);
            if after.contains(i) {
                let k = choose|k: int| 0 <= k < after.len() && after[k] == i;
                if k < before.len() {
                    assert(before[k] == i);
                }
            }
        }
        if i < probes.len() - 1 {
            assert(probes.drop_last()[i as int] == probes[i as int]);
        }
    }
}

/// The first position at which something holds is one at which it does, and it
/// holds at none before; there is none only where it holds nowhere.
pub proof fn lemma_first_where_is_first(
    probes: Seq<LibraryProbe>,
    found: spec_fn(LibraryProbe) -> bool,
)
    requires
        probes.len() <= usize::MAX,
    ensures
        match first_where(probes, found) {
            Some(i) => i < probes.len() && found(probes[i as int]) && forall|j: int|
                0 <= j < i ==> !found(#[trigger] probes[j]),
            None => forall|j: int| 0 <= j < probes.len() ==> !found(#[trigger] probes[j]),
        },
    decreases probes.len(),
{
    if probes.len() > 0 {
        let fewer = probes.drop_last();
        lemma_first_where_is_first(fewer, found);
        assert forall|j: int| 0 <= j < fewer.len() implies fewer[j] == #[trigger] probes[j] by {}
        match first_where(fewer, found) {
            Some(i) => {
                assert(found(fewer[i as int]));
                assert forall|j: int| 0 <= j < i implies !found(#[trigger] probes[j]) by {
                    assert(!found(fewer[j]));
                }
            },
            None => {
                assert forall|j: int| 0 <= j < fewer.len() implies !found(
                    #[trigger] probes[j],
                ) by {
                    assert(!found(fewer[j]));
                }
            },
        }
    }
}

/// The libraries themselves are asked before the functions that know more, and
/// each source once.
pub proof fn lemma_sources_are_asked_in_order(resolver: GlProcResolver, i: int)
    ensures
        0 <= i < resolver.libs@.len() ==> resolver.sources()[i] == LookupSource::Library(
            resolver.libs@[i],
        ),
        resolver.egl_get_proc matches Some(lib) ==> resolver.sources()[resolver.libs@.len() as int]
            == LookupSource::Egl(lib),
        resolver.glx_get_proc matches Some(lib) ==> resolver.sources().last() == LookupSource::Glx(
            lib,
        ),
        resolver.sources().len() == resolver.libs@.len() + (if resolver.egl_get_proc is Some {
            1nat
        } else {
            0nat
        }) + (if resolver.glx_get_proc is Some {
            1nat
        } else {
            0nat
        }),
{
}

/// A lookup asks the next source while none gave an address, and is over with
/// the first one that is given, or once every source was asked.
pub proof fn lemma_lookup_goes_on_until_found(
    resolver: GlProcResolver,
    name: Seq<char>,
    answered: nat,
    last: usize,
)
    ensures
        name.contains('\0') ==> resolver.step(name, answered, last) == LookupStep::Done(0),
        !name.contains('\0') && answered > 0 && last != 0 ==> resolver.step(name, answered, last)
            == LookupStep::Done(last),
        !name.contains('\0') && (answered == 0 || last == 0) && answered < resolver.sources().len()
            ==> resolver.step(name, answered, last) == LookupStep::Ask(
            resolver.sources()[answered as int],
        ),
        !name.contains('\0') && (answered == 0 || last == 0) && answered >= resolver.sources().len()
            ==> resolver.step(name, answered, last) == LookupStep::Done(0),
{
}

/// No two formats share a sized format, all hold four components, and two share
/// the type of their data only if both hold bytes.
pub proof fn lemma_formats_are_told_apart(a: FramebufferFormat, b: FramebufferFormat)
    requires
        a != b,
    ensures
        format_desc(a).internal != format_desc(b).internal,
        format_desc(a).external == format_desc(b).external,
        format_desc(a).data_type == format_desc(b).data_type <==> (a is Rgba8Unorm
            || a is Rgba8UnormSrgb) && (b is Rgba8Unorm || b is Rgba8UnormSrgb),
{
}

/// OpenGL ES goes by the first `eglGetProcAddress` among the libraries that were
/// loaded and desktop OpenGL by the first `glXGetProcAddressARB`, and neither by
/// the other's.
pub proof fn lemma_each_context_has_its_source(uses_es: bool, probes: Seq<LibraryProbe>, i: usize)
    requires
        probes.len() <= usize::MAX,
    ensures
        egl_source(uses_es, probes) == Some(i) <==> uses_es && i < probes.len()
            && probes[i as int].loaded && probes[i as int].egl && (forall|j: int|
            0 <= j < i ==> !((#[trigger] probes[j]).loaded && probes[j].egl)),
        glx_source(uses_es, probes) == Some(i) <==> !uses_es && i < probes.len()
            && probes[i as int].loaded && probes[i as int].glx && (forall|j: int|
            0 <= j < i ==> !((#[trigger] probes[j]).loaded && probes[j].glx)),
{
    let has_egl = |p: LibraryProbe| p.loaded && p.egl;
    let has_glx = |p: LibraryProbe| p.loaded && p.glx;
    lemma_first_where_is_first(probes, has_egl);
    lemma_first_where_is_first(probes, has_glx);
    if i < probes.len() {
        assert(has_egl(probes[i as int]) == (probes[i as int].loaded && probes[i as int].egl));
        assert(has_glx(probes[i as int]) == (probes[i as int].loaded && probes[i as int].glx));
    }
    assert forall|j: int| 0 <= j < probes.len() implies has_egl(#[trigger] probes[j]) == (
    probes[j].loaded && probes[j].egl) && has_glx(probes[j]) == (probes[j].loaded
        && probes[j].glx) by {}
}

} // verus!
