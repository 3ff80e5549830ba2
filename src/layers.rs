//! Layered images: digits in layers of `width * height` pixels, where 0 is
//! black, 1 white and 2 transparent.
use vstd::prelude::*;
use crate::error::{custom_error, AocErr, AocResult};

verus! {

/// The digits of an image, one per pixel, layer after layer.
pub struct Data(pub Vec<u8>);

/// Reads a string of decimal digits.
pub fn parse_digits(s: &str) -> (r: AocResult<Data>)
    ensures
        (forall|i: int| 0 <= i < s@.len() ==> '0' <= #[trigger] s@[i] <= '9') ==> (r matches Ok(d)
            && d.0@.len() == s@.len() && forall|i: int| 0 <= i < s@.len() ==> #[trigger] d.0@[i] == s@[i] as int - '0' as int),
        !(forall|i: int| 0 <= i < s@.len() ==> '0' <= #[trigger] s@[i] <= '9') ==> (r matches Err(e) && e matches AocErr::Custom(_)),
{
    let n = s.unicode_len();
    let mut v: Vec<u8> = Vec::new();
    let mut i: usize = 0;
    while i < n
        invariant
            i <= n,
            n == s@.len(),
            v@.len() == i,
            forall|j: int| 0 <= j < i ==> '0' <= #[trigger] s@[j] <= '9',
            forall|j: int| 0 <= j < i ==> #[trigger] v@[j] == s@[j] as int - '0' as int,
        decreases n - i,
    {
        let c = s.get_char(i);
        if !('0' <= c && c <= '9') {
            return Err(custom_error("No digit"));
        }
        v.push((c as u32 - '0' as u32) as u8);
        i += 1;
    }
    Ok(Data(v))
}

impl std::str::FromStr for Data {
    type Err = AocErr;

    fn from_str(s: &str) -> Result<Data, AocErr> {
        parse_digits(s)
    }
}

/// How often `d` occurs in `s`.
pub open spec fn count_of(s: Seq<u8>, d: u8) -> nat
    decreases s.len(),
{
    if s.len() == 0 {
        0
    } else {
        count_of(s.drop_last(), d) + if s.last() == d { 1nat } else { 0nat }
    }
}

pub struct Image {
    data: Vec<u8>,
    width: usize,
    height: usize,
}

/// The abstract image: its digits and its dimensions.
pub struct ImageView {
    pub data: Seq<u8>,
    pub width: nat,
    pub height: nat,
}

impl View for Image {
    type V = ImageView;

    closed spec fn view(&self) -> ImageView {
        ImageView { data: self.data@, width: self.width as nat, height: self.height as nat }
    }
}

impl ImageView {
    pub open spec fn layer_size(self) -> nat {
        self.width * self.height
    }

    /// Whole layers; digits past the last whole layer are ignored.
    pub open spec fn layers_len(self) -> nat {
        self.data.len() / self.layer_size()
    }

    pub open spec fn layer(self, l: int) -> Seq<u8> {
        self.data.subrange(l * self.layer_size(), (l + 1) * self.layer_size())
    }

    /// Whether layer `l` has no more zeros than any layer, and fewer than
    /// every layer before it.
    pub open spec fn is_fewest_zeros(self, l: int) -> bool {
        &&& 0 <= l < self.layers_len()
        &&& forall|k: int| 0 <= k < self.layers_len() ==> count_of(self.layer(l), 0) <= count_of(#[trigger] self.layer(k), 0)
        &&& forall|k: int| 0 <= k < l ==> count_of(self.layer(l), 0) < count_of(#[trigger] self.layer(k), 0)
    }

    /// The colour of pixel `p` as seen through layers `l ..`: the first black
    /// or white one, or black where every layer is transparent.
    pub open spec fn visible(self, l: int, p: int) -> u8
        decreases self.layers_len() - l,
    {
        if l < 0 || l >= self.layers_len() {
            0
        } else if self.data[l * self.layer_size() + p] <= 1 {
            self.data[l * self.layer_size() + p]
        } else {
            self.visible(l + 1, p)
        }
    }
}

pub open spec fn wf_dims(width: nat, height: nat) -> bool {
    width > 0 && height > 0 && width * height <= usize::MAX
}

proof fn lemma_layer_in_bounds(v: ImageView, l: int)
    requires
        v.layer_size() > 0,
        0 <= l < v.layers_len(),
    ensures
        (l + 1) * v.layer_size() <= v.data.len(),
        0 <= l * v.layer_size(),
        l * v.layer_size() + v.layer_size() <= v.data.len(),
{
    let ls = v.layer_size() as int;
    let n = v.data.len() as int;
    assert(l + 1 <= n / ls);
    assert((l + 1) * ls <= (n / ls) * ls) by (nonlinear_arith)
        requires
            l + 1 <= n / ls,
            ls > 0,
    ;
    assert((n / ls) * ls <= n) by (nonlinear_arith)
        requires
            ls > 0,
            n >= 0,
    ;
    assert(0 <= l * ls) by (nonlinear_arith)
        requires
            l >= 0,
            ls > 0,
    ;
    assert((l + 1) * ls == l * ls + ls) by (nonlinear_arith);
}

impl Image {
    pub fn from_data(data: Data, height: usize, width: usize) -> (r: Image)
        requires
            wf_dims(width as nat, height as nat),
        ensures
            r@ == (ImageView { data: data.0@, width: width as nat, height: height as nat }),
            r.wf(),
    {
        Image { data: data.0, height, width }
    }

    pub closed spec fn wf(&self) -> bool {
        wf_dims(self.width as nat, self.height as nat)
    }

    pub fn layer_size(&self) -> (r: usize)
        requires
            self.wf(),
        ensures
            r == self@.layer_size(),
            r > 0,
    {
        assert(self.width * self.height > 0) by (nonlinear_arith)
            requires
                self.width > 0,
                self.height > 0,
        ;
        self.width * self.height
    }

    pub fn layers_len(&self) -> (r: usize)
        requires
            self.wf(),
        ensures
            r == self@.layers_len(),
    {
        self.data.len() / self.layer_size()
    }

    /// The digits of layer `l`.
    pub fn layer_digits(&self, l: usize) -> (r: Vec<u8>)
        requires
            self.wf(),
            l < self@.layers_len(),
        ensures
            r@ == self@.layer(l as int),
            r@.len() == self@.layer_size(),
    {
        let total = self.data.len();
        let ls = self.layer_size();
        proof {
            lemma_layer_in_bounds(self@, l as int);
        }
        let start = l * ls;
        let mut v: Vec<u8> = Vec::new();
        let mut i: usize = 0;
        while i < ls
            invariant
                i <= ls,
                ls == self@.layer_size(),
                start == l * ls,
                start + ls <= self.data@.len(),
                total == self.data@.len(),
                v@ == self.data@.subrange(start as int, start + i),
            decreases ls - i,
        {
            v.push(self.data[start + i]);
            i += 1;
            assert(v@ =~= self.data@.subrange(start as int, start + i));
        }
        assert((l + 1) * ls == start + ls) by (nonlinear_arith)
            requires
                start == l * ls,
        ;
        v
    }

    /// The product of the counts of ones and twos in the layer with the
    /// fewest zeros (the first such layer).
    pub fn lowest_layer(&self) -> (r: usize)
        requires
            self.wf(),
            self@.layers_len() > 0,
            self@.layer_size() * self@.layer_size() <= usize::MAX,
        ensures
            exists|l: int| self@.is_fewest_zeros(l) && r == count_of(self@.layer(l), 1) * count_of(self@.layer(l), 2),
    {
        let n = self.layers_len();
        let mut best: usize = 0;
        let first = self.layer_digits(0);
        let mut best_zeros = count(&first, 0);
        let mut l: usize = 1;
        while l < n
            invariant
                1 <= l <= n,
                n == self@.layers_len(),
                self.wf(),
                best < l,
                best_zeros == count_of(self@.layer(best as int), 0),
                forall|k: int| 0 <= k < l ==> count_of(self@.layer(best as int), 0) <= count_of(#[trigger] self@.layer(k), 0),
                forall|k: int| 0 <= k < best ==> count_of(self@.layer(best as int), 0) < count_of(#[trigger] self@.layer(k), 0),
            decreases n - l,
        {
            let layer = self.layer_digits(l);
            let zeros = count(&layer, 0);
            if zeros < best_zeros {
                best = l;
                best_zeros = zeros;
            }
            l += 1;
        }
        let layer = self.layer_digits(best);
        let ones = count(&layer, 1);
        let twos = count(&layer, 2);
        let ls = self.layer_size();
        assert(ones * twos <= ls * ls) by (nonlinear_arith)
            requires
                ones <= ls,
                twos <= ls,
        ;
        assert(self@.is_fewest_zeros(best as int));
        ones * twos
    }

    /// The visible picture, row by row: each pixel takes the colour of the
    /// frontmost layer that is not transparent there, or black.
    pub fn draw_image(&self) -> (r: Vec<Vec<u8>>)
        requires
            self.wf(),
        ensures
            r@.len() == self@.height,
            forall|y: int| 0 <= y < self@.height ==> (#[trigger] r@[y])@.len() == self@.width,
            forall|y: int, x: int| 0 <= y < self@.height && 0 <= x < self@.width ==> #[trigger] r@[y]@[x]
                == self@.visible(0, y * self@.width + x),
    {
        let ls = self.layer_size();
        let n = self.layers_len();
        let mut pixels: Vec<u8> = Vec::new();
        let mut p: usize = 0;
        while p < ls
            invariant
                p <= ls,
                pixels@.len() == p,
                forall|q: int| 0 <= q < p ==> #[trigger] pixels@[q] == 0,
            decreases ls - p,
        {
            pixels.push(0);
            p += 1;
        }
        let mut l: usize = n;
        while l > 0
            invariant
                l <= n,
                n == self@.layers_len(),
                ls == self@.layer_size(),
                ls > 0,
                self.wf(),
                pixels@.len() == ls,
                forall|q: int| 0 <= q < ls ==> #[trigger] pixels@[q] == self@.visible(l as int, q),
            decreases l,
        {
            l -= 1;
            let total = self.data.len();
            proof {
                lemma_layer_in_bounds(self@, l as int);
            }
            let start = l * ls;
            let mut q: usize = 0;
            while q < ls
                invariant
                    q <= ls,
                    l < n,
                    n == self@.layers_len(),
                    ls == self@.layer_size(),
                    start == l * ls,
                    start + ls <= self.data@.len(),
                    total == self.data@.len(),
                    pixels@.len() == ls,
                    forall|i: int| 0 <= i < q ==> #[trigger] pixels@[i] == self@.visible(l as int, i),
                    forall|i: int| q <= i < ls ==> #[trigger] pixels@[i] == self@.visible(l + 1, i),
                decreases ls - q,
            {
                let d = self.data[start + q];
                if d <= 1 {
                    pixels.set(q, d);
                }
                q += 1;
            }
        }
        let mut rows: Vec<Vec<u8>> = Vec::new();
        let mut y: usize = 0;
        while y < self.height
            invariant
                y <= self.height,
                ls == self.width * self.height,
                pixels@.len() == ls,
                forall|q: int| 0 <= q < ls ==> #[trigger] pixels@[q] == self@.visible(0, q),
                rows@.len() == y,
                forall|j: int| 0 <= j < y ==> (#[trigger] rows@[j])@.len() == self.width,
                forall|j: int, x: int| 0 <= j < y && 0 <= x < self.width ==> #[trigger] rows@[j]@[x]
                    == self@.visible(0, j * self.width + x),
            decreases self.height - y,
        {
            let mut row: Vec<u8> = Vec::new();
            let mut x: usize = 0;
            assert((y + 1) * self.width <= self.width * self.height) by (nonlinear_arith)
                requires
                    y < self.height,
            ;
            while x < self.width
                invariant
                    x <= self.width,
                    y < self.height,
                    (y + 1) * self.width <= ls,
                    pixels@.len() == ls,
                    forall|q: int| 0 <= q < ls ==> #[trigger] pixels@[q] == self@.visible(0, q),
                    row@.len() == x,
                    forall|i: int| 0 <= i < x ==> #[trigger] row@[i] == self@.visible(0, y * self.width + i),
                decreases self.width - x,
            {
                assert(y * self.width + x < (y + 1) * self.width) by (nonlinear_arith)
                    requires
                        x < self.width,
                ;
                row.push(pixels[y * self.width + x]);
                x += 1;
            }
            rows.push(row);
            y += 1;
        }
        rows
    }
}

/// How often `d` occurs in `v`.
fn count(v: &Vec<u8>, d: u8) -> (r: usize)
    ensures
        r == count_of(v@, d),
        r <= v@.len(),
{
    let mut c: usize = 0;
    let mut i: usize = 0;
    while i < v.len()
        invariant
            i <= v@.len(),
            c == count_of(v@.subrange(0, i as int), d),
            c <= i,
        decreases v.len() - i,
    {
        assert(v@.subrange(0, i + 1).drop_last() =~= v@.subrange(0, i as int));
        if v[i] == d {
            c += 1;
        }
        i += 1;
    }
    assert(v@.subrange(0, i as int) =~= v@);
    c
}

} // verus!
