//! The exact reach: which numbers of the sequence are computed.
//!
//! The largest operands that a doubling step takes have `2^22` limbs. Which
//! index that allows is found by following the doublings in decimal floating
//! point, with bounds on the mantissas.
use crate::digits;
use crate::fibonacci;
use crate::limbs;
use crate::ntt;
use vstd::arithmetic::div_mod::*;
use vstd::arithmetic::mul::*;
use vstd::arithmetic::power::*;
use vstd::arithmetic::power2::*;
use vstd::prelude::*;

verus! {

/// `v` lies between `m.0 * 10^e` and `m.1 * 10^e`.
spec fn between(v: nat, e: nat, m: (int, int)) -> bool {
    0 <= m.0 * pow(10, e) <= v <= m.1 * pow(10, e)
}

/// Bounds on `F(k)` and `F(k+1)` with a common exponent.
spec fn bracket(k: nat, e: nat, a: (int, int), b: (int, int)) -> bool {
    &&& between(fibonacci::fibonacci(k), e, a)
    &&& between(fibonacci::fibonacci(k + 1), e, b)
}

proof fn lemma_small_powers()
    ensures
        pow(10, 0) == 1,
        pow(10, 6) == 1_000_000,
        pow(10, 12) == 1_000_000_000_000,
{
    reveal_with_fuel(pow, 13);
}

/// A product of mantissas, rounded down or up to fewer digits.
proof fn lemma_rescale(v: int, e: nat, d: nat, q: int, m: int, r: int)
    requires
        q == pow(10, d),
    ensures
        m * (pow(10, e) * pow(10, e)) <= v && r * q <= m ==> r * pow(10, 2 * e + d) <= v,
        v <= m * (pow(10, e) * pow(10, e)) && m <= r * q ==> v <= r * pow(10, 2 * e + d),
{
    let s = pow(10, e) * pow(10, e);
    lemma_pow_positive(10, e);
    lemma_pow_adds(10, e, e);
    lemma_pow_adds(10, 2 * e, d);
    assert(s > 0) by (nonlinear_arith)
        requires
            s == pow(10, e) * pow(10, e),
            pow(10, e) > 0,
    ;
    assert(r * (s * q) == (r * q) * s) by (nonlinear_arith);
    assert(r * q <= m ==> (r * q) * s <= m * s) by (nonlinear_arith)
        requires
            s > 0,
    ;
    assert(m <= r * q ==> m * s <= (r * q) * s) by (nonlinear_arith)
        requires
            s > 0,
    ;
}

/// One doubling step on bounds, keeping as many digits as `10^d` leaves.
proof fn lemma_bracket_double(
    k: nat,
    e: nat,
    d: nat,
    a: (int, int),
    b: (int, int),
    x: (int, int),
    y: (int, int),
)
    requires
        bracket(k, e, a, b),
        0 <= a.0 <= a.1 <= b.0 <= b.1,
        0 <= x.0 && 0 <= y.0,
        x.0 * pow(10, d) <= a.0 * (2 * b.0 - a.1),
        a.1 * (2 * b.1 - a.0) <= x.1 * pow(10, d),
        y.0 * pow(10, d) <= a.0 * a.0 + b.0 * b.0,
        a.1 * a.1 + b.1 * b.1 <= y.1 * pow(10, d),
    ensures
        bracket(2 * k, 2 * e + d, x, y),
{
    let s = pow(10, e);
    let q = pow(10, d);
    let f = fibonacci::fibonacci(k) as int;
    let g = fibonacci::fibonacci(k + 1) as int;
    lemma_pow_positive(10, e);
    lemma_pow_positive(10, 2 * e + d);
    fibonacci::lemma_doubling(k);
    let even = f * (2 * g - f);
    let odd = f * f + g * g;
    assert((a.0 * (2 * b.0 - a.1)) * (s * s) <= even) by (nonlinear_arith)
        requires
            even == f * (2 * g - f),
            0 <= a.0 * s <= f <= a.1 * s,
            b.0 * s <= g,
            s > 0,
            0 <= a.1 <= b.0,
    {
        let t = 2 * (b.0 * s) - a.1 * s;
        assert(t == (2 * b.0 - a.1) * s) by (nonlinear_arith)
            requires
                t == 2 * (b.0 * s) - a.1 * s,
        ;
        assert(0 <= t) by (nonlinear_arith)
            requires
                t == (2 * b.0 - a.1) * s,
                s > 0,
                0 <= a.1 <= b.0,
        ;
        assert((a.0 * s) * t <= f * (2 * g - f)) by (nonlinear_arith)
            requires
                0 <= a.0 * s <= f,
                0 <= t <= 2 * g - f,
        ;
        assert((a.0 * (2 * b.0 - a.1)) * (s * s) == (a.0 * s) * t) by (nonlinear_arith)
            requires
                t == (2 * b.0 - a.1) * s,
        ;
    }
    assert(even <= (a.1 * (2 * b.1 - a.0)) * (s * s)) by (nonlinear_arith)
        requires
            even == f * (2 * g - f),
            0 <= a.0 * s <= f <= a.1 * s,
            f <= g <= b.1 * s,
    {
        let t = 2 * (b.1 * s) - a.0 * s;
        assert(t == (2 * b.1 - a.0) * s) by (nonlinear_arith)
            requires
                t == 2 * (b.1 * s) - a.0 * s,
        ;
        assert(f * (2 * g - f) <= (a.1 * s) * t) by (nonlinear_arith)
            requires
                0 <= f <= a.1 * s,
                0 <= 2 * g - f <= t,
        ;
        assert((a.1 * (2 * b.1 - a.0)) * (s * s) == (a.1 * s) * t) by (nonlinear_arith)
            requires
                t == (2 * b.1 - a.0) * s,
        ;
    }
    lemma_squares(f, g, a, b, s);
    lemma_rescale(even, e, d, q, a.0 * (2 * b.0 - a.1), x.0);
    lemma_rescale(even, e, d, q, a.1 * (2 * b.1 - a.0), x.1);
    lemma_rescale(odd, e, d, q, a.0 * a.0 + b.0 * b.0, y.0);
    lemma_rescale(odd, e, d, q, a.1 * a.1 + b.1 * b.1, y.1);
    lemma_mul_nonnegative(x.0, pow(10, 2 * e + d));
    lemma_mul_nonnegative(y.0, pow(10, 2 * e + d));
}

proof fn lemma_squares(f: int, g: int, a: (int, int), b: (int, int), s: int)
    requires
        0 <= a.0 * s <= f <= a.1 * s,
        0 <= b.0 * s <= g <= b.1 * s,
    ensures
        (a.0 * a.0 + b.0 * b.0) * (s * s) <= f * f + g * g,
        f * f + g * g <= (a.1 * a.1 + b.1 * b.1) * (s * s),
{
    lemma_square(f, a.0 * s);
    lemma_square(g, b.0 * s);
    lemma_square(a.1 * s, f);
    lemma_square(b.1 * s, g);
    assert((a.0 * a.0 + b.0 * b.0) * (s * s) == (a.0 * s) * (a.0 * s) + (b.0 * s) * (b.0 * s))
        by (nonlinear_arith);
    assert((a.1 * a.1 + b.1 * b.1) * (s * s) == (a.1 * s) * (a.1 * s) + (b.1 * s) * (b.1 * s))
        by (nonlinear_arith);
}

proof fn lemma_square(x: int, y: int)
    by (nonlinear_arith)
    requires
        0 <= y <= x,
    ensures
        y * y <= x * x,
{
}

/// One step forward on bounds.
proof fn lemma_bracket_advance(k: nat, e: nat, a: (int, int), b: (int, int))
    requires
        bracket(k, e, a, b),
    ensures
        bracket(k + 1, e, b, (a.0 + b.0, a.1 + b.1)),
{
    lemma_mul_is_distributive_add_other_way(pow(10, e), a.0, b.0);
    lemma_mul_is_distributive_add_other_way(pow(10, e), a.1, b.1);
    assert(fibonacci::fibonacci(k + 2) == fibonacci::fibonacci(k + 1) + fibonacci::fibonacci(k));
}

/// The bounds that the doublings lead to.
proof fn lemma_bracket_limit()
    ensures
        bracket(
            180_626_645,
            37_748_724,
            (902_214_760_857, 902_320_871_557),
            (1_459_795_772_922, 1_460_004_215_503),
        ),
{
    lemma_small_powers();
    lemma_seed();
    lemma_bracket_double(
        10,
        0,
        0,
        (55, 55),
        (89, 89),
        (6_765, 6_765),
        (10_946, 10_946),
    );
    lemma_bracket_advance(20, 0, (6_765, 6_765), (10_946, 10_946));
    lemma_bracket_double(
        21,
        0,
        0,
        (10_946, 10_946),
        (17_711, 17_711),
        (267_914_296, 267_914_296),
        (433_494_437, 433_494_437),
    );
    lemma_bracket_advance(42, 0, (267_914_296, 267_914_296), (433_494_437, 433_494_437));
    lemma_bracket_double(
        43,
        0,
        6,
        (433_494_437, 433_494_437),
        (701_408_733, 701_408_733),
        (420_196_140_727, 420_196_140_728),
        (679_891_637_638, 679_891_637_639),
    );
    lemma_bracket_double(
        86,
        6,
        12,
        (420_196_140_727, 420_196_140_728),
        (679_891_637_638, 679_891_637_639),
        (394_810_887_813, 394_810_887_817),
        (638_817_435_611, 638_817_435_615),
    );
    lemma_bracket_double(
        172,
        24,
        12,
        (394_810_887_813, 394_810_887_817),
        (638_817_435_611, 638_817_435_615),
        (348_548_520_670, 348_548_520_680),
        (563_963_353_176, 563_963_353_185),
    );
    lemma_bracket_double(
        344,
        60,
        12,
        (348_548_520_670, 348_548_520_680),
        (563_963_353_176, 563_963_353_185),
        (271_651_113_658, 271_651_113_676),
        (439_540_734_986, 439_540_735_004),
    );
    lemma_bracket_advance(688, 132, (271_651_113_658, 271_651_113_676), (439_540_734_986, 439_540_735_004));
    lemma_bracket_double(
        689,
        132,
        12,
        (439_540_734_986, 439_540_735_004),
        (711_191_848_644, 711_191_848_680),
        (431_999_518_018, 431_999_518_076),
        (698_989_903_289, 698_989_903_357),
    );
    lemma_bracket_double(
        1_378,
        276,
        12,
        (431_999_518_018, 431_999_518_076),
        (698_989_903_289, 698_989_903_357),
        (417_303_019_047, 417_303_019_188),
        (675_210_468_467, 675_210_468_613),
    );
    lemma_bracket_double(
        2_756,
        564,
        12,
        (417_303_019_047, 417_303_019_188),
        (675_210_468_467, 675_210_468_613),
        (389_392_924_202, 389_392_924_515),
        (630_050_986_433, 630_050_986_749),
    );
    lemma_bracket_double(
        5_512,
        1_140,
        12,
        (389_392_924_202, 389_392_924_515),
        (630_050_986_433, 630_050_986_749),
        (339_047_942_466, 339_047_943_108),
        (548_591_094_923, 548_591_095_566),
    );
    lemma_bracket_double(
        11_024,
        2_292,
        12,
        (339_047_942_466, 339_047_943_108),
        (548_591_094_923, 548_591_095_566),
        (257_043_856_469, 257_043_857_610),
        (415_905_696_719, 415_905_697_861),
    );
    lemma_bracket_advance(22_048, 4_596, (257_043_856_469, 257_043_857_610), (415_905_696_719, 415_905_697_861));
    lemma_bracket_double(
        22_049,
        4_596,
        12,
        (415_905_696_719, 415_905_697_861),
        (672_949_553_188, 672_949_555_471),
        (386_789_556_512, 386_789_559_949),
        (625_838_649_699, 625_838_653_722),
    );
    lemma_bracket_double(
        44_098,
        9_204,
        12,
        (386_789_556_512, 386_789_559_949),
        (625_838_649_699, 625_838_653_722),
        (334_529_545_174, 334_529_552_589),
        (541_280_176_483, 541_280_184_179),
    );
    lemma_bracket_double(
        88_196,
        18_420,
        12,
        (334_529_545_174, 334_529_552_589),
        (541_280_176_483, 541_280_184_179),
        (250_238_403_426, 250_238_416_603),
        (404_894_246_047, 404_894_259_341),
    );
    lemma_bracket_advance(176_392, 36_852, (250_238_403_426, 250_238_416_603), (404_894_246_047, 404_894_259_341));
    lemma_bracket_double(
        176_393,
        36_852,
        12,
        (404_894_246_047, 404_894_259_341),
        (655_132_649_473, 655_132_675_944),
        (366_579_524_473, 366_579_563_329),
        (593_138_138_887, 593_138_184_337),
    );
    lemma_bracket_double(
        352_786,
        73_716,
        12,
        (366_579_524_473, 366_579_563_329),
        (593_138_138_887, 593_138_184_337),
        (300_484_031_793, 300_484_111_210),
        (486_193_399_565, 486_193_481_970),
    );
    lemma_bracket_double(
        705_572,
        147_444,
        12,
        (300_484_031_793, 300_484_111_210),
        (486_193_399_565, 486_193_481_970),
        (201_896_028_638, 201_896_155_386),
        (326_674_675_143, 326_674_803_000),
    );
    lemma_bracket_advance(1_411_144, 294_900, (201_896_028_638, 201_896_155_386), (326_674_675_143, 326_674_803_000));
    lemma_bracket_double(
        1_411_145,
        294_900,
        12,
        (326_674_675_143, 326_674_803_000),
        (528_570_703_781, 528_570_958_386),
        (238_624_940_748, 238_625_242_258),
        (386_103_332_275, 386_103_684_965),
    );
    lemma_bracket_advance(2_822_290, 589_812, (238_624_940_748, 238_625_242_258), (386_103_332_275, 386_103_684_965));
    lemma_bracket_double(
        2_822_291,
        589_812,
        12,
        (386_103_332_275, 386_103_684_965),
        (624_728_273_023, 624_728_927_223),
        (333_343_416_592, 333_344_362_442),
        (539_361_198_308, 539_362_288_053),
    );
    lemma_bracket_double(
        5_644_582,
        1_179_636,
        12,
        (333_343_416_592, 333_344_362_442),
        (539_361_198_308, 539_362_288_053),
        (248_466_860_564, 248_468_607_395),
        (402_028_335_625, 402_030_141_746),
    );
    lemma_bracket_advance(11_289_164, 2_359_284, (248_466_860_564, 248_468_607_395), (402_028_335_625, 402_030_141_746));
    lemma_bracket_double(
        11_289_165,
        2_359_284,
        12,
        (402_028_335_625, 402_030_141_746),
        (650_495_196_189, 650_498_749_141),
        (361_407_493_354, 361_412_699_889),
        (584_770_782_910, 584_776_857_507),
    );
    lemma_bracket_double(
        22_578_330,
        4_718_580,
        12,
        (361_407_493_354, 361_412_699_889),
        (584_770_782_910, 584_776_857_507),
        (292_063_827_743, 292_074_307_876),
        (472_572_244_797, 472_583_112_717),
    );
    lemma_bracket_advance(45_156_660, 9_437_172, (292_063_827_743, 292_074_307_876), (472_572_244_797, 472_583_112_717));
    lemma_bracket_double(
        45_156_661,
        9_437_172,
        12,
        (472_572_244_797, 472_583_112_717),
        (764_636_072_540, 764_657_420_593),
        (499_361_908_076, 499_398_705_543),
        (807_992_849_981, 808_035_769_294),
    );
    lemma_bracket_double(
        90_313_322,
        18_874_356,
        12,
        (499_361_908_076, 499_398_705_543),
        (807_992_849_981, 808_035_769_294),
        (557_581_012_065, 557_683_343_946),
        (902_214_760_857, 902_320_871_557),
    );
    lemma_bracket_advance(180_626_644, 37_748_724, (557_581_012_065, 557_683_343_946), (902_214_760_857, 902_320_871_557));
}

proof fn lemma_seed()
    ensures
        bracket(10, 0, (55, 55), (89, 89)),
{
    reveal_with_fuel(fibonacci::fibonacci, 11);
    lemma_pow0(10);
}

/// One step back on bounds.
proof fn lemma_bracket_retreat(k: nat, e: nat, a: (int, int), b: (int, int))
    requires
        bracket(k + 1, e, a, b),
        a.1 <= b.0,
    ensures
        bracket(k, e, (b.0 - a.1, b.1 - a.0), a),
{
    let s = pow(10, e);
    lemma_pow_positive(10, e);
    lemma_mul_is_distributive_sub_other_way(s, b.0, a.1);
    lemma_mul_is_distributive_sub_other_way(s, b.1, a.0);
    lemma_mul_nonnegative(b.0 - a.1, s);
    assert(fibonacci::fibonacci(k + 2) == fibonacci::fibonacci(k + 1) + fibonacci::fibonacci(k));
}

/// A power of the base as a power of ten.
proof fn lemma_base_power(e: nat, d: nat)
    requires
        d == 9 * e,
    ensures
        limbs::base_pow(e) == pow(10, d),
{
    lemma_pow_multiplies(10, 9, e);
    digits::lemma_pow_ten_nine();
}

/// Around the operands of twice the largest size.
proof fn lemma_double_limit()
    ensures
        limbs::limb_count(fibonacci::fibonacci(361_253_288)) <= 0x80_0000,
        limbs::limb_count(fibonacci::fibonacci(361_253_289)) > 0x80_0000,
        limbs::limb_count(fibonacci::fibonacci(361_253_290)) <= 0x80_0001,
{
    lemma_bracket_limit();
    lemma_small_powers();
    lemma_bracket_double(
        180_626_645,
        37_748_724,
        12,
        (902_214_760_857, 902_320_871_557),
        (1_459_795_772_922, 1_460_004_215_503),
        (1_820_011_378_985, 1_820_697_343_072),
        (2_944_995_173_349, 2_945_795_264_534),
    );
    lemma_bracket_retreat(361_253_289, 75_497_460, (1_820_011_378_985, 1_820_697_343_072), (2_944_995_173_349, 2_945_795_264_534));
    lemma_bracket_retreat(361_253_288, 75_497_460, (1_124_297_830_277, 1_125_783_885_549), (1_820_011_378_985, 1_820_697_343_072));
    lemma_base_power(0x80_0000, 75_497_472);
    lemma_pow_adds(10, 75_497_460, 12);
    lemma_pow_positive(10, 75_497_460);
    let s = pow(10, 75_497_460);
    lemma_mul_inequality(696_399_512_795, 1_000_000_000_000, s);
    lemma_mul_inequality(1_000_000_000_000, 1_124_297_830_277, s);
    lemma_mul_is_commutative(1_000_000_000_000, s);
    lemma_mul_inequality(1_820_697_343_072, 10_000_000_000_000, s);
    limbs::lemma_base_pow_step(0x80_0000);
    limbs::lemma_limb_count(fibonacci::fibonacci(361_253_288), 0x80_0000);
    limbs::lemma_limb_count(fibonacci::fibonacci(361_253_289), 0x80_0000);
    limbs::lemma_limb_count(fibonacci::fibonacci(361_253_290), 0x80_0001);
}

/// The size that a refusal reports is `2^24`; only the prefixes 361253288 and
/// 361253289 need `2^25`.
pub proof fn lemma_refusal_log(n: nat, i: nat)
    requires
        fibonacci::stops_at(n, i),
    ensures
        180_626_645 <= n / pow2(i) <= 361_253_289,
        n / pow2(i) < 361_253_288 ==> fibonacci::refusal(n) == Some(24nat),
        n / pow2(i) >= 361_253_288 ==> fibonacci::refusal(n) == Some(25nat),
{
    let k = n / pow2(i);
    let m = limbs::limb_count(fibonacci::fibonacci(k + 1));
    fibonacci::lemma_refusal_size(n, i);
    let l = fibonacci::refusal(n)->Some_0;
    lemma_pow2_unfold(i + 1);
    lemma_pow2_pos(i);
    lemma_div_denominator(n as int, pow2(i) as int, 2);
    lemma_mul_is_commutative(pow2(i) as int, 2);
    assert(k / 2 == n / pow2(i + 1));
    lemma_limit_operands();
    if k < 180_626_645 {
        lemma_limb_count_ordered(k + 1, 180_626_645);
    }
    if k > 361_253_289 {
        lemma_limb_count_ordered(180_626_646, k / 2 + 1);
    }
    lemma_double_limit();
    lemma2_to64();
    ntt::lemma_ceil_log(2 * m, l);
    ntt::lemma_ceil_log(2 * m, 24);
    ntt::lemma_ceil_log(2 * m, 25);
    if k < 361_253_288 {
        lemma_limb_count_ordered(k + 1, 361_253_288);
    } else {
        lemma_limb_count_ordered(361_253_289, k + 1);
        lemma_limb_count_ordered(k + 1, 361_253_290);
    }
}

/// Later numbers of the sequence have at least as many limbs.
proof fn lemma_limb_count_ordered(m: nat, n: nat)
    requires
        m <= n,
    ensures
        limbs::limb_count(fibonacci::fibonacci(m)) <= limbs::limb_count(fibonacci::fibonacci(n)),
{
    fibonacci::lemma_monotone(m, n);
    limbs::lemma_limb_count_monotone(fibonacci::fibonacci(m), fibonacci::fibonacci(n));
}

/// The last operand of `2^22` limbs, and the first that is longer.
proof fn lemma_limit_operands()
    ensures
        limbs::limb_count(fibonacci::fibonacci(180_626_645)) <= 0x40_0000,
        limbs::limb_count(fibonacci::fibonacci(180_626_646)) > 0x40_0000,
{
    let s = pow(10, 37_748_724);
    lemma_bracket_limit();
    lemma_base_power(0x40_0000, 37_748_736);
    lemma_small_powers();
    lemma_pow_adds(10, 37_748_724, 12);
    lemma_pow_positive(10, 37_748_724);
    lemma_mul_inequality(902_320_871_557, 1_000_000_000_000, s);
    lemma_mul_inequality(1_000_000_000_000, 1_459_795_772_922, s);
    lemma_mul_is_commutative(1_000_000_000_000, s);
    limbs::lemma_limb_count(fibonacci::fibonacci(180_626_645), 0x40_0000);
    limbs::lemma_limb_count(fibonacci::fibonacci(180_626_646), 0x40_0000);
}

/// `F(n)` is computed for every index below 361253290, and refused from there
/// on.
pub proof fn lemma_reach(n: nat)
    ensures
        fibonacci::refusal(n) is None <==> n < 361_253_290,
{
    let k = n / 2 + 1;
    fibonacci::lemma_refusal(n);
    lemma_limit_operands();
    if n < 361_253_290 {
        lemma_limb_count_ordered(k, 180_626_645);
    } else {
        lemma_limb_count_ordered(180_626_646, k);
    }
}

} // verus!
