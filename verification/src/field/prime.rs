//! The STARK modulus is prime, by a Lucas certificate: 3 has
//! multiplicative order `p − 1 = 2^119 · 11 · 37` modulo `p`, so its powers
//! cover every nonzero residue.  Fermat's little theorem and the
//! invertibility of every nonzero residue follow, and the field's
//! canonical generator has order `2^119`.

use vstd::prelude::*;
use vstd::arithmetic::div_mod::*;
use vstd::arithmetic::mul::*;
use vstd::arithmetic::power::*;
use vstd::arithmetic::power2::*;

use crate::field::{MAIN_GENERATOR, MAIN_PRIME};
use vstd::std_specs::ops::MulSpec;

verus! {

/// `b^e mod m` by repeated squaring, as a specification.
pub open spec fn pow_mod_spec(b: int, e: nat, m: int) -> int
    decreases e,
{
    if e == 0 {
        1int % m
    } else if e % 2 == 0 {
        let h = pow_mod_spec(b, e / 2, m);
        (h * h) % m
    } else {
        (b * pow_mod_spec(b, (e - 1) as nat, m)) % m
    }
}

/// Repeated squaring computes the power's residue.
pub proof fn lemma_pow_mod_spec(b: int, e: nat, m: int)
    requires
        m > 0,
    ensures
        pow_mod_spec(b, e, m) == pow(b, e) % m,
    decreases e,
{
    if e == 0 {
        reveal(pow);
    } else if e % 2 == 0 {
        let h = (e / 2) as nat;
        lemma_pow_mod_spec(b, h, m);
        lemma_pow_adds(b, h, h);
        lemma_mul_mod_noop_general(pow(b, h), pow(b, h), m);
    } else {
        lemma_pow_mod_spec(b, (e - 1) as nat, m);
        reveal(pow);
        lemma_mul_mod_noop_right(b, pow(b, (e - 1) as nat), m);
    }
}

/// Square-and-multiply steps towards `3^(p - 1)` (part 1 of 4).
proof fn witness_order_0()
    ensures
        pow_mod_spec(3, 27313307648, MAIN_PRIME as int) == 224760921383767948157608946181935986226,
{
    assert(pow_mod_spec(3, 0, MAIN_PRIME as int) == 1);
    assert(pow_mod_spec(3, 1, MAIN_PRIME as int) == 3);
    assert(pow_mod_spec(3, 2, MAIN_PRIME as int) == 9);
    assert(pow_mod_spec(3, 3, MAIN_PRIME as int) == 27);
    assert(pow_mod_spec(3, 6, MAIN_PRIME as int) == 729);
    assert(pow_mod_spec(3, 12, MAIN_PRIME as int) == 531441);
    assert(pow_mod_spec(3, 24, MAIN_PRIME as int) == 282429536481);
    assert(pow_mod_spec(3, 25, MAIN_PRIME as int) == 847288609443);
    assert(pow_mod_spec(3, 50, MAIN_PRIME as int) == 717897987691852588770249);
    assert(pow_mod_spec(3, 100, MAIN_PRIME as int) == 174416559987507035540694824556708733017);
    assert(pow_mod_spec(3, 101, MAIN_PRIME as int) == 252751782820290726486159736903076077834);
    assert(pow_mod_spec(3, 202, MAIN_PRIME as int) == 95386844906214173388245610978466137868);
    assert(pow_mod_spec(3, 203, MAIN_PRIME as int) == 15662637576412140028812096168348292387);
    assert(pow_mod_spec(3, 406, MAIN_PRIME as int) == 118635301846385015839845375165840817478);
    assert(pow_mod_spec(3, 407, MAIN_PRIME as int) == 85408008396924667383611388730472331217);
    assert(pow_mod_spec(3, 814, MAIN_PRIME as int) == 149224634558074809886965749048363504499);
    assert(pow_mod_spec(3, 1628, MAIN_PRIME as int) == 196162427740603549034094478475071502895);
    assert(pow_mod_spec(3, 3256, MAIN_PRIME as int) == 116907268213658073643575533712566658409);
    assert(pow_mod_spec(3, 6512, MAIN_PRIME as int) == 166617961947997291532655829812349960164);
    assert(pow_mod_spec(3, 13024, MAIN_PRIME as int) == 66539852496339537101639054531930604572);
    assert(pow_mod_spec(3, 26048, MAIN_PRIME as int) == 11440213797608215834996383946810379256);
    assert(pow_mod_spec(3, 52096, MAIN_PRIME as int) == 17602296786744439286762978807761752841);
    assert(pow_mod_spec(3, 104192, MAIN_PRIME as int) == 199541424264935087850924453643565512551);
    assert(pow_mod_spec(3, 208384, MAIN_PRIME as int) == 246850224108186744029793303077107928002);
    assert(pow_mod_spec(3, 416768, MAIN_PRIME as int) == 167821236365404291148050121994212534469);
    assert(pow_mod_spec(3, 833536, MAIN_PRIME as int) == 88976046038924257398602493835937884988);
    assert(pow_mod_spec(3, 1667072, MAIN_PRIME as int) == 113311751783716775014335921307100660215);
    assert(pow_mod_spec(3, 3334144, MAIN_PRIME as int) == 252518172258572391743594285991950099575);
    assert(pow_mod_spec(3, 6668288, MAIN_PRIME as int) == 11299117659779408681013300157561799534);
    assert(pow_mod_spec(3, 13336576, MAIN_PRIME as int) == 270412624064662740304871610389070347221);
    assert(pow_mod_spec(3, 26673152, MAIN_PRIME as int) == 107947943573123063506061990015412277862);
    assert(pow_mod_spec(3, 53346304, MAIN_PRIME as int) == 80416519481334871588817435157238859049);
    assert(pow_mod_spec(3, 106692608, MAIN_PRIME as int) == 225121490872289251628820053790942300823);
    assert(pow_mod_spec(3, 213385216, MAIN_PRIME as int) == 261542952432975256673517305685335932442);
    assert(pow_mod_spec(3, 426770432, MAIN_PRIME as int) == 255386618866870105815482582995418345528);
    assert(pow_mod_spec(3, 853540864, MAIN_PRIME as int) == 169357868963646291131969861540516148345);
    assert(pow_mod_spec(3, 1707081728, MAIN_PRIME as int) == 42860547447461522328132211891982695648);
    assert(pow_mod_spec(3, 3414163456, MAIN_PRIME as int) == 247455619237964463369664434510801692452);
    assert(pow_mod_spec(3, 6828326912, MAIN_PRIME as int) == 130122049647530062205581222296118697477);
    assert(pow_mod_spec(3, 13656653824, MAIN_PRIME as int) == 180551018904150520211061380083100186190);
    assert(pow_mod_spec(3, 27313307648, MAIN_PRIME as int) == 224760921383767948157608946181935986226);
}

/// Square-and-multiply steps towards `3^(p - 1)` (part 2 of 4).
proof fn witness_order_1()
    requires
        pow_mod_spec(3, 27313307648, MAIN_PRIME as int) == 224760921383767948157608946181935986226,
    ensures
        pow_mod_spec(3, 60062598703998300061696, MAIN_PRIME as int) == 231142037842266224342672198120388832262,
{
    assert(pow_mod_spec(3, 54626615296, MAIN_PRIME as int) == 176992033890563115156737092951553092095);
    assert(pow_mod_spec(3, 109253230592, MAIN_PRIME as int) == 27682845242716721946598882822503610202);
    assert(pow_mod_spec(3, 218506461184, MAIN_PRIME as int) == 108002185358140313573024299302487023714);
    assert(pow_mod_spec(3, 437012922368, MAIN_PRIME as int) == 62939139381922072894452418990800650140);
    assert(pow_mod_spec(3, 874025844736, MAIN_PRIME as int) == 57924891631807238565598727485572045644);
    assert(pow_mod_spec(3, 1748051689472, MAIN_PRIME as int) == 124100165001946951453904346266445263568);
    assert(pow_mod_spec(3, 3496103378944, MAIN_PRIME as int) == 17790046619295832126019970320279295517);
    assert(pow_mod_spec(3, 6992206757888, MAIN_PRIME as int) == 122164916714994622816075438467735778924);
    assert(pow_mod_spec(3, 13984413515776, MAIN_PRIME as int) == 13786098917239544716937413746546575312);
    assert(pow_mod_spec(3, 27968827031552, MAIN_PRIME as int) == 185263851514126330133912249213886199221);
    assert(pow_mod_spec(3, 55937654063104, MAIN_PRIME as int) == 179244674670192837828247893482562699105);
    assert(pow_mod_spec(3, 111875308126208, MAIN_PRIME as int) == 20563719943151555632205195012007115505);
    assert(pow_mod_spec(3, 223750616252416, MAIN_PRIME as int) == 140621402111036775988008772915844879174);
    assert(pow_mod_spec(3, 447501232504832, MAIN_PRIME as int) == 202836202521740724160226012827507627891);
    assert(pow_mod_spec(3, 895002465009664, MAIN_PRIME as int) == 23027356669772877248389090475997951526);
    assert(pow_mod_spec(3, 1790004930019328, MAIN_PRIME as int) == 58138121265556465467198353860315416106);
    assert(pow_mod_spec(3, 3580009860038656, MAIN_PRIME as int) == 165266553723404018475348156398223269877);
    assert(pow_mod_spec(3, 7160019720077312, MAIN_PRIME as int) == 261141639789913469346277529426114455260);
    assert(pow_mod_spec(3, 14320039440154624, MAIN_PRIME as int) == 58728008449227361815617982044258415329);
    assert(pow_mod_spec(3, 28640078880309248, MAIN_PRIME as int) == 37725989879039022500469842541563242074);
    assert(pow_mod_spec(3, 57280157760618496, MAIN_PRIME as int) == 60681604994722136887109123241705708294);
    assert(pow_mod_spec(3, 114560315521236992, MAIN_PRIME as int) == 141194708474709860713418838910853647399);
    assert(pow_mod_spec(3, 229120631042473984, MAIN_PRIME as int) == 114111171465583200206545561993065702547);
    assert(pow_mod_spec(3, 458241262084947968, MAIN_PRIME as int) == 133809604871796689988030087412326146557);
    assert(pow_mod_spec(3, 916482524169895936, MAIN_PRIME as int) == 139778377801951755471378484836047612481);
    assert(pow_mod_spec(3, 1832965048339791872, MAIN_PRIME as int) == 268724245828496293570156221921880532962);
    assert(pow_mod_spec(3, 3665930096679583744, MAIN_PRIME as int) == 3958032543719356951799974873689414320);
    assert(pow_mod_spec(3, 7331860193359167488, MAIN_PRIME as int) == 53059386756353717559522727970609300717);
    assert(pow_mod_spec(3, 14663720386718334976, MAIN_PRIME as int) == 164705897179045511576021990306356833063);
    assert(pow_mod_spec(3, 29327440773436669952, MAIN_PRIME as int) == 105295318520168687186049693150401624994);
    assert(pow_mod_spec(3, 58654881546873339904, MAIN_PRIME as int) == 16699477141478102951009382564178171941);
    assert(pow_mod_spec(3, 117309763093746679808, MAIN_PRIME as int) == 149055539229067169652728748735484291821);
    assert(pow_mod_spec(3, 234619526187493359616, MAIN_PRIME as int) == 138645589299768798093686386428214378832);
    assert(pow_mod_spec(3, 469239052374986719232, MAIN_PRIME as int) == 131074062203379889953062526448314520318);
    assert(pow_mod_spec(3, 938478104749973438464, MAIN_PRIME as int) == 26536124405033603670713480101053962456);
    assert(pow_mod_spec(3, 1876956209499946876928, MAIN_PRIME as int) == 57784280522505321714756156840676764917);
    assert(pow_mod_spec(3, 3753912418999893753856, MAIN_PRIME as int) == 7012453248280543647378601745987878829);
    assert(pow_mod_spec(3, 7507824837999787507712, MAIN_PRIME as int) == 119309974934634033526503127276303555971);
    assert(pow_mod_spec(3, 15015649675999575015424, MAIN_PRIME as int) == 115920883987797986801259308440027594150);
    assert(pow_mod_spec(3, 30031299351999150030848, MAIN_PRIME as int) == 149290865943755429783762521900753254994);
    assert(pow_mod_spec(3, 60062598703998300061696, MAIN_PRIME as int) == 231142037842266224342672198120388832262);
}

/// Square-and-multiply steps towards `3^(p - 1)` (part 3 of 4).
proof fn witness_order_2()
    requires
        pow_mod_spec(3, 60062598703998300061696, MAIN_PRIME as int) == 231142037842266224342672198120388832262,
    ensures
        pow_mod_spec(3, 132079051338979677800744500374536192, MAIN_PRIME as int) == 240639785279454729936319549588094844628,
{
    assert(pow_mod_spec(3, 120125197407996600123392, MAIN_PRIME as int) == 164609129545297704292836920354710862498);
    assert(pow_mod_spec(3, 240250394815993200246784, MAIN_PRIME as int) == 50932702601501463798052246008257562581);
    assert(pow_mod_spec(3, 480500789631986400493568, MAIN_PRIME as int) == 87996014433354069326265695207609150526);
    assert(pow_mod_spec(3, 961001579263972800987136, MAIN_PRIME as int) == 30459465645563241462545685926180803515);
    assert(pow_mod_spec(3, 1922003158527945601974272, MAIN_PRIME as int) == 230796742234458129108932900195113208666);
    assert(pow_mod_spec(3, 3844006317055891203948544, MAIN_PRIME as int) == 57339134353009133810797907793724699763);
    assert(pow_mod_spec(3, 7688012634111782407897088, MAIN_PRIME as int) == 71986082510956851263451977148123322035);
    assert(pow_mod_spec(3, 15376025268223564815794176, MAIN_PRIME as int) == 47679057791719070864231322410555492847);
    assert(pow_mod_spec(3, 30752050536447129631588352, MAIN_PRIME as int) == 165826587459566835239990104129175411136);
    assert(pow_mod_spec(3, 61504101072894259263176704, MAIN_PRIME as int) == 87633478589235870927785904175920872344);
    assert(pow_mod_spec(3, 123008202145788518526353408, MAIN_PRIME as int) == 175911951539014832173347546270092274198);
    assert(pow_mod_spec(3, 246016404291577037052706816, MAIN_PRIME as int) == 168180781047028361987806241322463554771);
    assert(pow_mod_spec(3, 492032808583154074105413632, MAIN_PRIME as int) == 188760366701737051411748298026312469771);
    assert(pow_mod_spec(3, 984065617166308148210827264, MAIN_PRIME as int) == 137043329739432280743935136466033442567);
    assert(pow_mod_spec(3, 1968131234332616296421654528, MAIN_PRIME as int) == 254811542197935531661802877449773277617);
    assert(pow_mod_spec(3, 3936262468665232592843309056, MAIN_PRIME as int) == 146121351841646199955613554491793313345);
    assert(pow_mod_spec(3, 7872524937330465185686618112, MAIN_PRIME as int) == 202134711252280552281770353669653550211);
    assert(pow_mod_spec(3, 15745049874660930371373236224, MAIN_PRIME as int) == 62020643629271613536358612995472649224);
    assert(pow_mod_spec(3, 31490099749321860742746472448, MAIN_PRIME as int) == 60955409100920546531994404498493215995);
    assert(pow_mod_spec(3, 62980199498643721485492944896, MAIN_PRIME as int) == 267306289615708092041963651785810633313);
    assert(pow_mod_spec(3, 125960398997287442970985889792, MAIN_PRIME as int) == 82886710661896431930683110203913025715);
    assert(pow_mod_spec(3, 251920797994574885941971779584, MAIN_PRIME as int) == 183672562657124655756044190146949222768);
    assert(pow_mod_spec(3, 503841595989149771883943559168, MAIN_PRIME as int) == 132011392005246224365974131170596379858);
    assert(pow_mod_spec(3, 1007683191978299543767887118336, MAIN_PRIME as int) == 70175474737685246412980779337185950443);
    assert(pow_mod_spec(3, 2015366383956599087535774236672, MAIN_PRIME as int) == 220997914137524785485614782437485244991);
    assert(pow_mod_spec(3, 4030732767913198175071548473344, MAIN_PRIME as int) == 171593735460794207840454921346185543981);
    assert(pow_mod_spec(3, 8061465535826396350143096946688, MAIN_PRIME as int) == 71288948178855918325178708028277674438);
    assert(pow_mod_spec(3, 16122931071652792700286193893376, MAIN_PRIME as int) == 65925256741735993773732873161688574648);
    assert(pow_mod_spec(3, 32245862143305585400572387786752, MAIN_PRIME as int) == 223621218216708547223464078625256957762);
    assert(pow_mod_spec(3, 64491724286611170801144775573504, MAIN_PRIME as int) == 70183190447477977100017978035181125195);
    assert(pow_mod_spec(3, 128983448573222341602289551147008, MAIN_PRIME as int) == 81205103701858762222647973189173115555);
    assert(pow_mod_spec(3, 257966897146444683204579102294016, MAIN_PRIME as int) == 246476146805045146772952495119713591992);
    assert(pow_mod_spec(3, 515933794292889366409158204588032, MAIN_PRIME as int) == 205585349689748417101142707299351452499);
    assert(pow_mod_spec(3, 1031867588585778732818316409176064, MAIN_PRIME as int) == 235536536747046009653031169237027907708);
    assert(pow_mod_spec(3, 2063735177171557465636632818352128, MAIN_PRIME as int) == 124563061566547205452168207223266849609);
    assert(pow_mod_spec(3, 4127470354343114931273265636704256, MAIN_PRIME as int) == 60852861674981758841349565467922926979);
    assert(pow_mod_spec(3, 8254940708686229862546531273408512, MAIN_PRIME as int) == 47297075848054312102354453716405586435);
    assert(pow_mod_spec(3, 16509881417372459725093062546817024, MAIN_PRIME as int) == 218316119641727656000523521043738064690);
    assert(pow_mod_spec(3, 33019762834744919450186125093634048, MAIN_PRIME as int) == 185080982397478044717513752950010250958);
    assert(pow_mod_spec(3, 66039525669489838900372250187268096, MAIN_PRIME as int) == 106535815141977674204471003459472633885);
    assert(pow_mod_spec(3, 132079051338979677800744500374536192, MAIN_PRIME as int) == 240639785279454729936319549588094844628);
}

/// Square-and-multiply steps towards `3^(p - 1)` (part 4 of 4).
proof fn witness_order_3()
    requires
        pow_mod_spec(3, 132079051338979677800744500374536192, MAIN_PRIME as int) == 240639785279454729936319549588094844628,
    ensures
        pow_mod_spec(3, 270497897142230380135924736767050121216, MAIN_PRIME as int) == 1,
        pow_mod_spec(3, 135248948571115190067962368383525060608, MAIN_PRIME as int) == 270497897142230380135924736767050121216,
{
    assert(pow_mod_spec(3, 264158102677959355601489000749072384, MAIN_PRIME as int) == 157047144299673000979490264221078274179);
    assert(pow_mod_spec(3, 528316205355918711202978001498144768, MAIN_PRIME as int) == 11068365217297290165464327737828832066);
    assert(pow_mod_spec(3, 1056632410711837422405956002996289536, MAIN_PRIME as int) == 178902808384765167578311106676137348214);
    assert(pow_mod_spec(3, 2113264821423674844811912005992579072, MAIN_PRIME as int) == 65907963977709178563567092354521124432);
    assert(pow_mod_spec(3, 4226529642847349689623824011985158144, MAIN_PRIME as int) == 59478736836296470922896375673044043947);
    assert(pow_mod_spec(3, 8453059285694699379247648023970316288, MAIN_PRIME as int) == 16698199167658661640320272194027702370);
    assert(pow_mod_spec(3, 16906118571389398758495296047940632576, MAIN_PRIME as int) == 22186728119017901039385635608201850931);
    assert(pow_mod_spec(3, 33812237142778797516990592095881265152, MAIN_PRIME as int) == 131076302407280330469229082343774091404);
    assert(pow_mod_spec(3, 67624474285557595033981184191762530304, MAIN_PRIME as int) == 259052015163170058651980223774986375587);
    assert(pow_mod_spec(3, 135248948571115190067962368383525060608, MAIN_PRIME as int) == 270497897142230380135924736767050121216);
    assert(pow_mod_spec(3, 270497897142230380135924736767050121216, MAIN_PRIME as int) == 1);
}

/// Square-and-multiply steps towards `3^((p - 1) / 11)` (part 1 of 4).
proof fn witness_eleventh_0()
    ensures
        pow_mod_spec(3, 158913789952, MAIN_PRIME as int) == 247533765388341713030407715985412008184,
{
    assert(pow_mod_spec(3, 0, MAIN_PRIME as int) == 1);
    assert(pow_mod_spec(3, 1, MAIN_PRIME as int) == 3);
    assert(pow_mod_spec(3, 2, MAIN_PRIME as int) == 9);
    assert(pow_mod_spec(3, 4, MAIN_PRIME as int) == 81);
    assert(pow_mod_spec(3, 8, MAIN_PRIME as int) == 6561);
    assert(pow_mod_spec(3, 9, MAIN_PRIME as int) == 19683);
    assert(pow_mod_spec(3, 18, MAIN_PRIME as int) == 387420489);
    assert(pow_mod_spec(3, 36, MAIN_PRIME as int) == 150094635296999121);
    assert(pow_mod_spec(3, 37, MAIN_PRIME as int) == 450283905890997363);
    assert(pow_mod_spec(3, 74, MAIN_PRIME as int) == 202755595904452569706561330872953769);
    assert(pow_mod_spec(3, 148, MAIN_PRIME as int) == 131120348173254839080574103816098787764);
    assert(pow_mod_spec(3, 296, MAIN_PRIME as int) == 251077438568039977404860452668386109157);
    assert(pow_mod_spec(3, 592, MAIN_PRIME as int) == 67626815878048194880648026629786968253);
    assert(pow_mod_spec(3, 1184, MAIN_PRIME as int) == 125317935406932792037951954170932858411);
    assert(pow_mod_spec(3, 2368, MAIN_PRIME as int) == 193068065687748357550659834769814198486);
    assert(pow_mod_spec(3, 4736, MAIN_PRIME as int) == 140283887849586457789302840132109910205);
    assert(pow_mod_spec(3, 9472, MAIN_PRIME as int) == 149887656093933985537455337002004643893);
    assert(pow_mod_spec(3, 18944, MAIN_PRIME as int) == 137541326540589602338042239958134012202);
    assert(pow_mod_spec(3, 37888, MAIN_PRIME as int) == 185129318254045102052876458435419280132);
    assert(pow_mod_spec(3, 75776, MAIN_PRIME as int) == 186467078570500685272578611661219279183);
    assert(pow_mod_spec(3, 151552, MAIN_PRIME as int) == 43761560043965451407438585030572806167);
    assert(pow_mod_spec(3, 303104, MAIN_PRIME as int) == 38652775635953530987011983913464054123);
    assert(pow_mod_spec(3, 606208, MAIN_PRIME as int) == 78092230253411465843049230464606492605);
    assert(pow_mod_spec(3, 1212416, MAIN_PRIME as int) == 38322272903240656058278031763702722848);
    assert(pow_mod_spec(3, 2424832, MAIN_PRIME as int) == 261196743060692146346004411432336362589);
    assert(pow_mod_spec(3, 4849664, MAIN_PRIME as int) == 132762079241250605043689670744365530347);
    assert(pow_mod_spec(3, 9699328, MAIN_PRIME as int) == 260324882902074971714635289151074243988);
    assert(pow_mod_spec(3, 19398656, MAIN_PRIME as int) == 94513338927025261513918436706125449560);
    assert(pow_mod_spec(3, 38797312, MAIN_PRIME as int) == 66335940750622873016188743347141318536);
    assert(pow_mod_spec(3, 77594624, MAIN_PRIME as int) == 130162288407321220741759426232292674489);
    assert(pow_mod_spec(3, 155189248, MAIN_PRIME as int) == 170953852272605372981224375383457729047);
    assert(pow_mod_spec(3, 310378496, MAIN_PRIME as int) == 96377259174146933231375086443440651738);
    assert(pow_mod_spec(3, 620756992, MAIN_PRIME as int) == 45007556047394626080205597970586310109);
    assert(pow_mod_spec(3, 1241513984, MAIN_PRIME as int) == 76434872125543276495023188847882735808);
    assert(pow_mod_spec(3, 2483027968, MAIN_PRIME as int) == 77118298044497307675989763599704234603);
    assert(pow_mod_spec(3, 4966055936, MAIN_PRIME as int) == 206444473944010607700470738746486647226);
    assert(pow_mod_spec(3, 9932111872, MAIN_PRIME as int) == 83790713747854685653239748010464213902);
    assert(pow_mod_spec(3, 19864223744, MAIN_PRIME as int) == 114074040862266739455483182792596298999);
    assert(pow_mod_spec(3, 39728447488, MAIN_PRIME as int) == 89151123098889051739124705709524774122);
    assert(pow_mod_spec(3, 79456894976, MAIN_PRIME as int) == 46709534758000231762494215954470073141);
    assert(pow_mod_spec(3, 158913789952, MAIN_PRIME as int) == 247533765388341713030407715985412008184);
}

/// Square-and-multiply steps towards `3^((p - 1) / 11)` (part 2 of 4).
proof fn witness_eleventh_1()
    requires
        pow_mod_spec(3, 158913789952, MAIN_PRIME as int) == 247533765388341713030407715985412008184,
    ensures
        pow_mod_spec(3, 349455119732353745813504, MAIN_PRIME as int) == 209544653376312330654366254201611375934,
{
    assert(pow_mod_spec(3, 317827579904, MAIN_PRIME as int) == 227874072078448006042209702297625668060);
    assert(pow_mod_spec(3, 635655159808, MAIN_PRIME as int) == 71317963365722537823354847305040850947);
    assert(pow_mod_spec(3, 1271310319616, MAIN_PRIME as int) == 222734483472489937658653166001293296630);
    assert(pow_mod_spec(3, 2542620639232, MAIN_PRIME as int) == 221422237381541300813642520099293353481);
    assert(pow_mod_spec(3, 5085241278464, MAIN_PRIME as int) == 185275098444295479856336035365372834421);
    assert(pow_mod_spec(3, 10170482556928, MAIN_PRIME as int) == 176296841661631323603711474404113756603);
    assert(pow_mod_spec(3, 20340965113856, MAIN_PRIME as int) == 57994506952909964892904591290772676120);
    assert(pow_mod_spec(3, 40681930227712, MAIN_PRIME as int) == 261973588280243848019638149311742012612);
    assert(pow_mod_spec(3, 81363860455424, MAIN_PRIME as int) == 19551844411649841381755171126262337068);
    assert(pow_mod_spec(3, 162727720910848, MAIN_PRIME as int) == 222043621921751841780466187000589579094);
    assert(pow_mod_spec(3, 325455441821696, MAIN_PRIME as int) == 164152759676876396718203444060222591110);
    assert(pow_mod_spec(3, 650910883643392, MAIN_PRIME as int) == 79569673365459664015265310270850170744);
    assert(pow_mod_spec(3, 1301821767286784, MAIN_PRIME as int) == 111554700734796721986145036987655822144);
    assert(pow_mod_spec(3, 2603643534573568, MAIN_PRIME as int) == 199396735131129592778246830418943169865);
    assert(pow_mod_spec(3, 5207287069147136, MAIN_PRIME as int) == 231035293144922496225066191756208049641);
    assert(pow_mod_spec(3, 10414574138294272, MAIN_PRIME as int) == 253285830693978397638370089998040108213);
    assert(pow_mod_spec(3, 20829148276588544, MAIN_PRIME as int) == 210143204951254111566925510554513009371);
    assert(pow_mod_spec(3, 41658296553177088, MAIN_PRIME as int) == 154611803571622527349672794251468633528);
    assert(pow_mod_spec(3, 83316593106354176, MAIN_PRIME as int) == 2687499329605062825331960937160191412);
    assert(pow_mod_spec(3, 166633186212708352, MAIN_PRIME as int) == 231371722620709605139109031052842086863);
    assert(pow_mod_spec(3, 333266372425416704, MAIN_PRIME as int) == 165681675204225957436909816077270478279);
    assert(pow_mod_spec(3, 666532744850833408, MAIN_PRIME as int) == 45811600745193827672139100111998127704);
    assert(pow_mod_spec(3, 1333065489701666816, MAIN_PRIME as int) == 193788541654969338350666040622524602710);
    assert(pow_mod_spec(3, 2666130979403333632, MAIN_PRIME as int) == 77366801106657021310748128334369204014);
    assert(pow_mod_spec(3, 5332261958806667264, MAIN_PRIME as int) == 124806303933670554671558304774647123838);
    assert(pow_mod_spec(3, 10664523917613334528, MAIN_PRIME as int) == 209379228628429873347918341788327817578);
    assert(pow_mod_spec(3, 21329047835226669056, MAIN_PRIME as int) == 117613456171972020238131073284574754257);
    assert(pow_mod_spec(3, 42658095670453338112, MAIN_PRIME as int) == 138541406665923409714749464794354213352);
    assert(pow_mod_spec(3, 85316191340906676224, MAIN_PRIME as int) == 250651572643914888124989626525863801754);
    assert(pow_mod_spec(3, 170632382681813352448, MAIN_PRIME as int) == 44296750000144743425579443200631982988);
    assert(pow_mod_spec(3, 341264765363626704896, MAIN_PRIME as int) == 258062778815169207070259060664209358719);
    assert(pow_mod_spec(3, 682529530727253409792, MAIN_PRIME as int) == 101270807140403665057469138988685467086);
    assert(pow_mod_spec(3, 1365059061454506819584, MAIN_PRIME as int) == 207883395102999165832685300748310250709);
    assert(pow_mod_spec(3, 2730118122909013639168, MAIN_PRIME as int) == 202892461643000829280317996202646672972);
    assert(pow_mod_spec(3, 5460236245818027278336, MAIN_PRIME as int) == 95300763088411376564277206810322960361);
    assert(pow_mod_spec(3, 10920472491636054556672, MAIN_PRIME as int) == 68831467537678221807853659523960741842);
    assert(pow_mod_spec(3, 21840944983272109113344, MAIN_PRIME as int) == 242173296683424047905351104635299821954);
    assert(pow_mod_spec(3, 43681889966544218226688, MAIN_PRIME as int) == 105713248989276227877446479890986845542);
    assert(pow_mod_spec(3, 87363779933088436453376, MAIN_PRIME as int) == 264799879803046848636278136369889397217);
    assert(pow_mod_spec(3, 174727559866176872906752, MAIN_PRIME as int) == 222166977014787813062259933571917391221);
    assert(pow_mod_spec(3, 349455119732353745813504, MAIN_PRIME as int) == 209544653376312330654366254201611375934);
}

/// Square-and-multiply steps towards `3^((p - 1) / 11)` (part 3 of 4).
proof fn witness_eleventh_2()
    requires
        pow_mod_spec(3, 349455119732353745813504, MAIN_PRIME as int) == 209544653376312330654366254201611375934,
    ensures
        pow_mod_spec(3, 768459935063154489022513456724574208, MAIN_PRIME as int) == 243788783727504428397937398040221847217,
{
    assert(pow_mod_spec(3, 698910239464707491627008, MAIN_PRIME as int) == 93956485591201779324449284076889919478);
    assert(pow_mod_spec(3, 1397820478929414983254016, MAIN_PRIME as int) == 102650328555386651455929905246559520496);
    assert(pow_mod_spec(3, 2795640957858829966508032, MAIN_PRIME as int) == 108798688623712731095582279277108426766);
    assert(pow_mod_spec(3, 5591281915717659933016064, MAIN_PRIME as int) == 260196544895508315866704374151384185050);
    assert(pow_mod_spec(3, 11182563831435319866032128, MAIN_PRIME as int) == 236490889044566919098070860102736076346);
    assert(pow_mod_spec(3, 22365127662870639732064256, MAIN_PRIME as int) == 113657343689337406074268760164508428613);
    assert(pow_mod_spec(3, 44730255325741279464128512, MAIN_PRIME as int) == 249941215736931102002817530099818131986);
    assert(pow_mod_spec(3, 89460510651482558928257024, MAIN_PRIME as int) == 141470720787811524728613732523587850886);
    assert(pow_mod_spec(3, 178921021302965117856514048, MAIN_PRIME as int) == 140508683004520240409581699658218057147);
    assert(pow_mod_spec(3, 357842042605930235713028096, MAIN_PRIME as int) == 191070828206729615224986199898733827741);
    assert(pow_mod_spec(3, 715684085211860471426056192, MAIN_PRIME as int) == 43564691030599992257040216619431876397);
    assert(pow_mod_spec(3, 1431368170423720942852112384, MAIN_PRIME as int) == 20017414789855881570453639884800640039);
    assert(pow_mod_spec(3, 2862736340847441885704224768, MAIN_PRIME as int) == 119157245927775696132128803497844998232);
    assert(pow_mod_spec(3, 5725472681694883771408449536, MAIN_PRIME as int) == 45744486563695065545506810547783026618);
    assert(pow_mod_spec(3, 11450945363389767542816899072, MAIN_PRIME as int) == 76159929254487409901904596176116850296);
    assert(pow_mod_spec(3, 22901890726779535085633798144, MAIN_PRIME as int) == 90092473913266424234894342128813615988);
    assert(pow_mod_spec(3, 45803781453559070171267596288, MAIN_PRIME as int) == 196576001203930120919911889890793485751);
    assert(pow_mod_spec(3, 91607562907118140342535192576, MAIN_PRIME as int) == 168819270718956132494851686905969938782);
    assert(pow_mod_spec(3, 183215125814236280685070385152, MAIN_PRIME as int) == 65346993132045893546807299732498969395);
    assert(pow_mod_spec(3, 366430251628472561370140770304, MAIN_PRIME as int) == 247620902011417172974120875277683151526);
    assert(pow_mod_spec(3, 732860503256945122740281540608, MAIN_PRIME as int) == 214969516718188834355755508040362986921);
    assert(pow_mod_spec(3, 1465721006513890245480563081216, MAIN_PRIME as int) == 118874858452926182327690420769498278079);
    assert(pow_mod_spec(3, 2931442013027780490961126162432, MAIN_PRIME as int) == 200382204095755987926614447451789233753);
    assert(pow_mod_spec(3, 5862884026055560981922252324864, MAIN_PRIME as int) == 56917390365644112220146785758785578895);
    assert(pow_mod_spec(3, 11725768052111121963844504649728, MAIN_PRIME as int) == 143124486509327831457319946401313178363);
    assert(pow_mod_spec(3, 23451536104222243927689009299456, MAIN_PRIME as int) == 148280093108729648261356325727626590082);
    assert(pow_mod_spec(3, 46903072208444487855378018598912, MAIN_PRIME as int) == 247758262862453498172350872371874960248);
    assert(pow_mod_spec(3, 93806144416888975710756037197824, MAIN_PRIME as int) == 87451494912427573883462651415850309941);
    assert(pow_mod_spec(3, 187612288833777951421512074395648, MAIN_PRIME as int) == 72218272908516882615432807294239983533);
    assert(pow_mod_spec(3, 375224577667555902843024148791296, MAIN_PRIME as int) == 34770435731673253828563755572820228013);
    assert(pow_mod_spec(3, 750449155335111805686048297582592, MAIN_PRIME as int) == 188349496095865255836559127994058937275);
    assert(pow_mod_spec(3, 1500898310670223611372096595165184, MAIN_PRIME as int) == 156234252254508328851418255402797350723);
    assert(pow_mod_spec(3, 3001796621340447222744193190330368, MAIN_PRIME as int) == 188483300448637748069813118432924885561);
    assert(pow_mod_spec(3, 6003593242680894445488386380660736, MAIN_PRIME as int) == 232597161289167209144354585891520207471);
    assert(pow_mod_spec(3, 12007186485361788890976772761321472, MAIN_PRIME as int) == 129664575707986655498311920411897907271);
    assert(pow_mod_spec(3, 24014372970723577781953545522642944, MAIN_PRIME as int) == 262806246394223899076448657042618353563);
    assert(pow_mod_spec(3, 48028745941447155563907091045285888, MAIN_PRIME as int) == 31154516235401600182356639480914160906);
    assert(pow_mod_spec(3, 96057491882894311127814182090571776, MAIN_PRIME as int) == 102963966568828456923832932353651950784);
    assert(pow_mod_spec(3, 192114983765788622255628364181143552, MAIN_PRIME as int) == 136157738814057378304892535000578627250);
    assert(pow_mod_spec(3, 384229967531577244511256728362287104, MAIN_PRIME as int) == 71081359221030080283809149074979801707);
    assert(pow_mod_spec(3, 768459935063154489022513456724574208, MAIN_PRIME as int) == 243788783727504428397937398040221847217);
}

/// Square-and-multiply steps towards `3^((p - 1) / 11)` (part 4 of 4).
proof fn witness_eleventh_3()
    requires
        pow_mod_spec(3, 768459935063154489022513456724574208, MAIN_PRIME as int) == 243788783727504428397937398040221847217,
    ensures
        pow_mod_spec(3, 24590717922020943648720430615186374656, MAIN_PRIME as int) == 234568507355261677065175941950749850600,
        pow_mod_spec(3, 12295358961010471824360215307593187328, MAIN_PRIME as int) == 101030554528420959965906378985569362651,
{
    assert(pow_mod_spec(3, 1536919870126308978045026913449148416, MAIN_PRIME as int) == 6808174351647645755888530240313325389);
    assert(pow_mod_spec(3, 3073839740252617956090053826898296832, MAIN_PRIME as int) == 140046725227818244964088188718358850618);
    assert(pow_mod_spec(3, 6147679480505235912180107653796593664, MAIN_PRIME as int) == 40314734343385359648897445326505871713);
    assert(pow_mod_spec(3, 12295358961010471824360215307593187328, MAIN_PRIME as int) == 101030554528420959965906378985569362651);
    assert(pow_mod_spec(3, 24590717922020943648720430615186374656, MAIN_PRIME as int) == 234568507355261677065175941950749850600);
}

/// Square-and-multiply steps towards `3^((p - 1) / 37)` (part 1 of 4).
proof fn witness_thirty_seventh_0()
    ensures
        pow_mod_spec(3, 188978561024, MAIN_PRIME as int) == 105628207574812291587925303714584354549,
{
    assert(pow_mod_spec(3, 0, MAIN_PRIME as int) == 1);
    assert(pow_mod_spec(3, 1, MAIN_PRIME as int) == 3);
    assert(pow_mod_spec(3, 2, MAIN_PRIME as int) == 9);
    assert(pow_mod_spec(3, 4, MAIN_PRIME as int) == 81);
    assert(pow_mod_spec(3, 5, MAIN_PRIME as int) == 243);
    assert(pow_mod_spec(3, 10, MAIN_PRIME as int) == 59049);
    assert(pow_mod_spec(3, 11, MAIN_PRIME as int) == 177147);
    assert(pow_mod_spec(3, 22, MAIN_PRIME as int) == 31381059609);
    assert(pow_mod_spec(3, 44, MAIN_PRIME as int) == 984770902183611232881);
    assert(pow_mod_spec(3, 88, MAIN_PRIME as int) == 38768532627690089531760854206130997216);
    assert(pow_mod_spec(3, 176, MAIN_PRIME as int) == 197410046541080547256709142811765550130);
    assert(pow_mod_spec(3, 352, MAIN_PRIME as int) == 10691209370540982905522291184395174894);
    assert(pow_mod_spec(3, 704, MAIN_PRIME as int) == 81403970992603629662440293621587066966);
    assert(pow_mod_spec(3, 1408, MAIN_PRIME as int) == 4115649604702514601777045767636605830);
    assert(pow_mod_spec(3, 2816, MAIN_PRIME as int) == 187406816076244120757026031343584541279);
    assert(pow_mod_spec(3, 5632, MAIN_PRIME as int) == 123349498156867254231120561978633840054);
    assert(pow_mod_spec(3, 11264, MAIN_PRIME as int) == 104837018355405750193924600324448098769);
    assert(pow_mod_spec(3, 22528, MAIN_PRIME as int) == 52750947252620165600486426621628102350);
    assert(pow_mod_spec(3, 45056, MAIN_PRIME as int) == 228464594267411174827715134413305467789);
    assert(pow_mod_spec(3, 90112, MAIN_PRIME as int) == 36832625072361978684024823519065203055);
    assert(pow_mod_spec(3, 180224, MAIN_PRIME as int) == 115767262163901928614904630908276221839);
    assert(pow_mod_spec(3, 360448, MAIN_PRIME as int) == 254537302714160921451935276134940934674);
    assert(pow_mod_spec(3, 720896, MAIN_PRIME as int) == 46651462146148042492562545138502105365);
    assert(pow_mod_spec(3, 1441792, MAIN_PRIME as int) == 263651316635485169293069450862063934363);
    assert(pow_mod_spec(3, 2883584, MAIN_PRIME as int) == 38475361406888369757643505965448415493);
    assert(pow_mod_spec(3, 5767168, MAIN_PRIME as int) == 170858991732926793941115213987107610002);
    assert(pow_mod_spec(3, 11534336, MAIN_PRIME as int) == 9756470380463637470213044225947182697);
    assert(pow_mod_spec(3, 23068672, MAIN_PRIME as int) == 249471277627084511721067269858589347083);
    assert(pow_mod_spec(3, 46137344, MAIN_PRIME as int) == 14914262138686859341321641212578341474);
    assert(pow_mod_spec(3, 92274688, MAIN_PRIME as int) == 37353944481894931771070859703742403393);
    assert(pow_mod_spec(3, 184549376, MAIN_PRIME as int) == 79413327013053635964243809580576406075);
    assert(pow_mod_spec(3, 369098752, MAIN_PRIME as int) == 203684278744453226408359244564187401631);
    assert(pow_mod_spec(3, 738197504, MAIN_PRIME as int) == 234803989007092416819165526485080073528);
    assert(pow_mod_spec(3, 1476395008, MAIN_PRIME as int) == 254785109132593396823015224785365506340);
    assert(pow_mod_spec(3, 2952790016, MAIN_PRIME as int) == 231735089467629475867141762934036739383);
    assert(pow_mod_spec(3, 5905580032, MAIN_PRIME as int) == 261281735502684127460096497965826786219);
    assert(pow_mod_spec(3, 11811160064, MAIN_PRIME as int) == 185305457021902493423189726379933679440);
    assert(pow_mod_spec(3, 23622320128, MAIN_PRIME as int) == 220012706552394757183643133147694961017);
    assert(pow_mod_spec(3, 47244640256, MAIN_PRIME as int) == 58953164253521963469272686443664723128);
    assert(pow_mod_spec(3, 94489280512, MAIN_PRIME as int) == 258077168593650972351712652318074976631);
    assert(pow_mod_spec(3, 188978561024, MAIN_PRIME as int) == 105628207574812291587925303714584354549);
}

/// Square-and-multiply steps towards `3^((p - 1) / 37)` (part 2 of 4).
proof fn witness_thirty_seventh_1()
    requires
        pow_mod_spec(3, 188978561024, MAIN_PRIME as int) == 105628207574812291587925303714584354549,
    ensures
        pow_mod_spec(3, 415568250492528778805248, MAIN_PRIME as int) == 191896757944643183192226706668633887857,
{
    assert(pow_mod_spec(3, 377957122048, MAIN_PRIME as int) == 255970233424408047388922651654224458701);
    assert(pow_mod_spec(3, 755914244096, MAIN_PRIME as int) == 249817684982844594764968578103351008763);
    assert(pow_mod_spec(3, 1511828488192, MAIN_PRIME as int) == 196814910791294002915711948502572361963);
    assert(pow_mod_spec(3, 3023656976384, MAIN_PRIME as int) == 1728345071363173454772369129081726938);
    assert(pow_mod_spec(3, 6047313952768, MAIN_PRIME as int) == 97672667582627910082412748388665431087);
    assert(pow_mod_spec(3, 12094627905536, MAIN_PRIME as int) == 100511815987670366724880982842531269816);
    assert(pow_mod_spec(3, 24189255811072, MAIN_PRIME as int) == 3717593886600864777032354008693009955);
    assert(pow_mod_spec(3, 48378511622144, MAIN_PRIME as int) == 7689602248511627777575260637875970479);
    assert(pow_mod_spec(3, 96757023244288, MAIN_PRIME as int) == 7829342002068050570184771996994834233);
    assert(pow_mod_spec(3, 193514046488576, MAIN_PRIME as int) == 172672804886171336439699278012462286263);
    assert(pow_mod_spec(3, 387028092977152, MAIN_PRIME as int) == 222679769185568501235479700881144802384);
    assert(pow_mod_spec(3, 774056185954304, MAIN_PRIME as int) == 255203013429530463645571216594794339264);
    assert(pow_mod_spec(3, 1548112371908608, MAIN_PRIME as int) == 14994314296391303728219009474629728972);
    assert(pow_mod_spec(3, 3096224743817216, MAIN_PRIME as int) == 113950577809279963581714419416757429137);
    assert(pow_mod_spec(3, 6192449487634432, MAIN_PRIME as int) == 99678785332611851261383544412354999852);
    assert(pow_mod_spec(3, 12384898975268864, MAIN_PRIME as int) == 186257826739444542444185742742173760418);
    assert(pow_mod_spec(3, 24769797950537728, MAIN_PRIME as int) == 97185881091850136817820493840229220548);
    assert(pow_mod_spec(3, 49539595901075456, MAIN_PRIME as int) == 239346311477995832684041816867928623789);
    assert(pow_mod_spec(3, 99079191802150912, MAIN_PRIME as int) == 248357128526252400893764830825231840327);
    assert(pow_mod_spec(3, 198158383604301824, MAIN_PRIME as int) == 3853921479187359742798672184098068561);
    assert(pow_mod_spec(3, 396316767208603648, MAIN_PRIME as int) == 203773912553063679834836813406080397384);
    assert(pow_mod_spec(3, 792633534417207296, MAIN_PRIME as int) == 166754823067750493331077366476365343995);
    assert(pow_mod_spec(3, 1585267068834414592, MAIN_PRIME as int) == 1112870239350264089896688365619067098);
    assert(pow_mod_spec(3, 3170534137668829184, MAIN_PRIME as int) == 86519072586786886655381296415573866553);
    assert(pow_mod_spec(3, 6341068275337658368, MAIN_PRIME as int) == 110294495165437410149994676079313077416);
    assert(pow_mod_spec(3, 12682136550675316736, MAIN_PRIME as int) == 172752985984942540025420959218563304723);
    assert(pow_mod_spec(3, 25364273101350633472, MAIN_PRIME as int) == 65905444053335953601003878139323300811);
    assert(pow_mod_spec(3, 50728546202701266944, MAIN_PRIME as int) == 198725430501820596861361369766572566299);
    assert(pow_mod_spec(3, 101457092405402533888, MAIN_PRIME as int) == 189908498544923194126514724674977221527);
    assert(pow_mod_spec(3, 202914184810805067776, MAIN_PRIME as int) == 101628708285750799091224707945798711383);
    assert(pow_mod_spec(3, 405828369621610135552, MAIN_PRIME as int) == 242066484252708116668313244182494579382);
    assert(pow_mod_spec(3, 811656739243220271104, MAIN_PRIME as int) == 5106174993833902126915920856967859191);
    assert(pow_mod_spec(3, 1623313478486440542208, MAIN_PRIME as int) == 227907253118229225366469173916304026545);
    assert(pow_mod_spec(3, 3246626956972881084416, MAIN_PRIME as int) == 147432440139700379624886970809618586381);
    assert(pow_mod_spec(3, 6493253913945762168832, MAIN_PRIME as int) == 40910702913781155322338356840681079979);
    assert(pow_mod_spec(3, 12986507827891524337664, MAIN_PRIME as int) == 245321540991354749523416781608690233200);
    assert(pow_mod_spec(3, 25973015655783048675328, MAIN_PRIME as int) == 227713265081505251109888563758843036023);
    assert(pow_mod_spec(3, 51946031311566097350656, MAIN_PRIME as int) == 119209276767729506454675919400686094968);
    assert(pow_mod_spec(3, 103892062623132194701312, MAIN_PRIME as int) == 88588430300304305720148352331383351766);
    assert(pow_mod_spec(3, 207784125246264389402624, MAIN_PRIME as int) == 19794521830780212223217587674601654925);
    assert(pow_mod_spec(3, 415568250492528778805248, MAIN_PRIME as int) == 191896757944643183192226706668633887857);
}

/// Square-and-multiply steps towards `3^((p - 1) / 37)` (part 3 of 4).
proof fn witness_thirty_seventh_2()
    requires
        pow_mod_spec(3, 415568250492528778805248, MAIN_PRIME as int) == 191896757944643183192226706668633887857,
    ensures
        pow_mod_spec(3, 913844247102129662621367353942736896, MAIN_PRIME as int) == 56554314256410441073444559185900454338,
{
    assert(pow_mod_spec(3, 831136500985057557610496, MAIN_PRIME as int) == 170582281369531391660291585320672384193);
    assert(pow_mod_spec(3, 1662273001970115115220992, MAIN_PRIME as int) == 201818341561596896503035382936428115322);
    assert(pow_mod_spec(3, 3324546003940230230441984, MAIN_PRIME as int) == 155811623733326338336224882646855676831);
    assert(pow_mod_spec(3, 6649092007880460460883968, MAIN_PRIME as int) == 109531947546219530800355128551136422706);
    assert(pow_mod_spec(3, 13298184015760920921767936, MAIN_PRIME as int) == 121855565095400045802460655039352597418);
    assert(pow_mod_spec(3, 26596368031521841843535872, MAIN_PRIME as int) == 214964994501629832925744190594179071868);
    assert(pow_mod_spec(3, 53192736063043683687071744, MAIN_PRIME as int) == 87472482012720176053755127480490251373);
    assert(pow_mod_spec(3, 106385472126087367374143488, MAIN_PRIME as int) == 102884458627443738651724340479825813842);
    assert(pow_mod_spec(3, 212770944252174734748286976, MAIN_PRIME as int) == 262568356859252843272988676989976922093);
    assert(pow_mod_spec(3, 425541888504349469496573952, MAIN_PRIME as int) == 225995331623703595985473287036249397759);
    assert(pow_mod_spec(3, 851083777008698938993147904, MAIN_PRIME as int) == 227335576624985482621241683115227977924);
    assert(pow_mod_spec(3, 1702167554017397877986295808, MAIN_PRIME as int) == 85928167047975495305671658392896231419);
    assert(pow_mod_spec(3, 3404335108034795755972591616, MAIN_PRIME as int) == 153539613384594177211306861910974970759);
    assert(pow_mod_spec(3, 6808670216069591511945183232, MAIN_PRIME as int) == 174175806046750973885254559100097747174);
    assert(pow_mod_spec(3, 13617340432139183023890366464, MAIN_PRIME as int) == 124395991911264553961035202914549656047);
    assert(pow_mod_spec(3, 27234680864278366047780732928, MAIN_PRIME as int) == 2747173258716293111905408924549536115);
    assert(pow_mod_spec(3, 54469361728556732095561465856, MAIN_PRIME as int) == 66585539789469476270033795815436800905);
    assert(pow_mod_spec(3, 108938723457113464191122931712, MAIN_PRIME as int) == 3009595639188411708301915836575361541);
    assert(pow_mod_spec(3, 217877446914226928382245863424, MAIN_PRIME as int) == 86624205277303105209795240573887018548);
    assert(pow_mod_spec(3, 435754893828453856764491726848, MAIN_PRIME as int) == 196747793648699149897114837968418547389);
    assert(pow_mod_spec(3, 871509787656907713528983453696, MAIN_PRIME as int) == 166302133883153114642437701098745288352);
    assert(pow_mod_spec(3, 1743019575313815427057966907392, MAIN_PRIME as int) == 195565267478914565395287585373465684893);
    assert(pow_mod_spec(3, 3486039150627630854115933814784, MAIN_PRIME as int) == 358540159563766265939272615551469653);
    assert(pow_mod_spec(3, 6972078301255261708231867629568, MAIN_PRIME as int) == 235684811762590284579107499450271818720);
    assert(pow_mod_spec(3, 13944156602510523416463735259136, MAIN_PRIME as int) == 195381028748935585933403120904014055946);
    assert(pow_mod_spec(3, 27888313205021046832927470518272, MAIN_PRIME as int) == 71983973873118490396735707590147817593);
    assert(pow_mod_spec(3, 55776626410042093665854941036544, MAIN_PRIME as int) == 212139578373232304204928223182147788807);
    assert(pow_mod_spec(3, 111553252820084187331709882073088, MAIN_PRIME as int) == 76017861352855132788875426461426238986);
    assert(pow_mod_spec(3, 223106505640168374663419764146176, MAIN_PRIME as int) == 134379167891500956826073500445281618385);
    assert(pow_mod_spec(3, 446213011280336749326839528292352, MAIN_PRIME as int) == 160483466494079657949432509198162880545);
    assert(pow_mod_spec(3, 892426022560673498653679056584704, MAIN_PRIME as int) == 141989404054532813192755887043834727834);
    assert(pow_mod_spec(3, 1784852045121346997307358113169408, MAIN_PRIME as int) == 94061145252196405147250919513678017805);
    assert(pow_mod_spec(3, 3569704090242693994614716226338816, MAIN_PRIME as int) == 64103861740145187673395237256074998927);
    assert(pow_mod_spec(3, 7139408180485387989229432452677632, MAIN_PRIME as int) == 161791260213983472699535537860583658726);
    assert(pow_mod_spec(3, 14278816360970775978458864905355264, MAIN_PRIME as int) == 87926926174287029104786840508240383143);
    assert(pow_mod_spec(3, 28557632721941551956917729810710528, MAIN_PRIME as int) == 186076513089742235044308698791645760451);
    assert(pow_mod_spec(3, 57115265443883103913835459621421056, MAIN_PRIME as int) == 23407098232583332886770630385846688417);
    assert(pow_mod_spec(3, 114230530887766207827670919242842112, MAIN_PRIME as int) == 31546192712917177185864272454230867357);
    assert(pow_mod_spec(3, 228461061775532415655341838485684224, MAIN_PRIME as int) == 205710647260694058942482787278497119648);
    assert(pow_mod_spec(3, 456922123551064831310683676971368448, MAIN_PRIME as int) == 114056671610699209114472022282095265626);
    assert(pow_mod_spec(3, 913844247102129662621367353942736896, MAIN_PRIME as int) == 56554314256410441073444559185900454338);
}

/// Square-and-multiply steps towards `3^((p - 1) / 37)` (part 4 of 4).
proof fn witness_thirty_seventh_3()
    requires
        pow_mod_spec(3, 913844247102129662621367353942736896, MAIN_PRIME as int) == 56554314256410441073444559185900454338,
    ensures
        pow_mod_spec(3, 7310753976817037300970938831541895168, MAIN_PRIME as int) == 182498491411211996488888433660343682689,
        pow_mod_spec(3, 3655376988408518650485469415770947584, MAIN_PRIME as int) == 197157033300795686504878759564912503701,
{
    assert(pow_mod_spec(3, 1827688494204259325242734707885473792, MAIN_PRIME as int) == 149845884635910374518641098556564580393);
    assert(pow_mod_spec(3, 3655376988408518650485469415770947584, MAIN_PRIME as int) == 197157033300795686504878759564912503701);
    assert(pow_mod_spec(3, 7310753976817037300970938831541895168, MAIN_PRIME as int) == 182498491411211996488888433660343682689);
}

/// Square-and-multiply steps towards `g^(2^119)` (part 1 of 3).
proof fn generator_order_0()
    ensures
        pow_mod_spec(MAIN_GENERATOR as int, 549755813888, MAIN_PRIME as int) == 140621402111036775988008772915844879174,
{
    assert(pow_mod_spec(MAIN_GENERATOR as int, 0, MAIN_PRIME as int) == 1);
    assert(pow_mod_spec(MAIN_GENERATOR as int, 1, MAIN_PRIME as int) == 85408008396924667383611388730472331217);
    assert(pow_mod_spec(MAIN_GENERATOR as int, 2, MAIN_PRIME as int) == 149224634558074809886965749048363504499);
    assert(pow_mod_spec(MAIN_GENERATOR as int, 4, MAIN_PRIME as int) == 196162427740603549034094478475071502895);
    assert(pow_mod_spec(MAIN_GENERATOR as int, 8, MAIN_PRIME as int) == 116907268213658073643575533712566658409);
    assert(pow_mod_spec(MAIN_GENERATOR as int, 16, MAIN_PRIME as int) == 166617961947997291532655829812349960164);
    assert(pow_mod_spec(MAIN_GENERATOR as int, 32, MAIN_PRIME as int) == 66539852496339537101639054531930604572);
    assert(pow_mod_spec(MAIN_GENERATOR as int, 64, MAIN_PRIME as int) == 11440213797608215834996383946810379256);
    assert(pow_mod_spec(MAIN_GENERATOR as int, 128, MAIN_PRIME as int) == 17602296786744439286762978807761752841);
    assert(pow_mod_spec(MAIN_GENERATOR as int, 256, MAIN_PRIME as int) == 199541424264935087850924453643565512551);
    assert(pow_mod_spec(MAIN_GENERATOR as int, 512, MAIN_PRIME as int) == 246850224108186744029793303077107928002);
    assert(pow_mod_spec(MAIN_GENERATOR as int, 1024, MAIN_PRIME as int) == 167821236365404291148050121994212534469);
    assert(pow_mod_spec(MAIN_GENERATOR as int, 2048, MAIN_PRIME as int) == 88976046038924257398602493835937884988);
    assert(pow_mod_spec(MAIN_GENERATOR as int, 4096, MAIN_PRIME as int) == 113311751783716775014335921307100660215);
    assert(pow_mod_spec(MAIN_GENERATOR as int, 8192, MAIN_PRIME as int) == 252518172258572391743594285991950099575);
    assert(pow_mod_spec(MAIN_GENERATOR as int, 16384, MAIN_PRIME as int) == 11299117659779408681013300157561799534);
    assert(pow_mod_spec(MAIN_GENERATOR as int, 32768, MAIN_PRIME as int) == 270412624064662740304871610389070347221);
    assert(pow_mod_spec(MAIN_GENERATOR as int, 65536, MAIN_PRIME as int) == 107947943573123063506061990015412277862);
    assert(pow_mod_spec(MAIN_GENERATOR as int, 131072, MAIN_PRIME as int) == 80416519481334871588817435157238859049);
    assert(pow_mod_spec(MAIN_GENERATOR as int, 262144, MAIN_PRIME as int) == 225121490872289251628820053790942300823);
    assert(pow_mod_spec(MAIN_GENERATOR as int, 524288, MAIN_PRIME as int) == 261542952432975256673517305685335932442);
    assert(pow_mod_spec(MAIN_GENERATOR as int, 1048576, MAIN_PRIME as int) == 255386618866870105815482582995418345528);
    assert(pow_mod_spec(MAIN_GENERATOR as int, 2097152, MAIN_PRIME as int) == 169357868963646291131969861540516148345);
    assert(pow_mod_spec(MAIN_GENERATOR as int, 4194304, MAIN_PRIME as int) == 42860547447461522328132211891982695648);
    assert(pow_mod_spec(MAIN_GENERATOR as int, 8388608, MAIN_PRIME as int) == 247455619237964463369664434510801692452);
    assert(pow_mod_spec(MAIN_GENERATOR as int, 16777216, MAIN_PRIME as int) == 130122049647530062205581222296118697477);
    assert(pow_mod_spec(MAIN_GENERATOR as int, 33554432, MAIN_PRIME as int) == 180551018904150520211061380083100186190);
    assert(pow_mod_spec(MAIN_GENERATOR as int, 67108864, MAIN_PRIME as int) == 224760921383767948157608946181935986226);
    assert(pow_mod_spec(MAIN_GENERATOR as int, 134217728, MAIN_PRIME as int) == 176992033890563115156737092951553092095);
    assert(pow_mod_spec(MAIN_GENERATOR as int, 268435456, MAIN_PRIME as int) == 27682845242716721946598882822503610202);
    assert(pow_mod_spec(MAIN_GENERATOR as int, 536870912, MAIN_PRIME as int) == 108002185358140313573024299302487023714);
    assert(pow_mod_spec(MAIN_GENERATOR as int, 1073741824, MAIN_PRIME as int) == 62939139381922072894452418990800650140);
    assert(pow_mod_spec(MAIN_GENERATOR as int, 2147483648, MAIN_PRIME as int) == 57924891631807238565598727485572045644);
    assert(pow_mod_spec(MAIN_GENERATOR as int, 4294967296, MAIN_PRIME as int) == 124100165001946951453904346266445263568);
    assert(pow_mod_spec(MAIN_GENERATOR as int, 8589934592, MAIN_PRIME as int) == 17790046619295832126019970320279295517);
    assert(pow_mod_spec(MAIN_GENERATOR as int, 17179869184, MAIN_PRIME as int) == 122164916714994622816075438467735778924);
    assert(pow_mod_spec(MAIN_GENERATOR as int, 34359738368, MAIN_PRIME as int) == 13786098917239544716937413746546575312);
    assert(pow_mod_spec(MAIN_GENERATOR as int, 68719476736, MAIN_PRIME as int) == 185263851514126330133912249213886199221);
    assert(pow_mod_spec(MAIN_GENERATOR as int, 137438953472, MAIN_PRIME as int) == 179244674670192837828247893482562699105);
    assert(pow_mod_spec(MAIN_GENERATOR as int, 274877906944, MAIN_PRIME as int) == 20563719943151555632205195012007115505);
    assert(pow_mod_spec(MAIN_GENERATOR as int, 549755813888, MAIN_PRIME as int) == 140621402111036775988008772915844879174);
}

/// Square-and-multiply steps towards `g^(2^119)` (part 2 of 3).
proof fn generator_order_1()
    requires
        pow_mod_spec(MAIN_GENERATOR as int, 549755813888, MAIN_PRIME as int) == 140621402111036775988008772915844879174,
    ensures
        pow_mod_spec(MAIN_GENERATOR as int, 1208925819614629174706176, MAIN_PRIME as int) == 188760366701737051411748298026312469771,
{
    assert(pow_mod_spec(MAIN_GENERATOR as int, 1099511627776, MAIN_PRIME as int) == 202836202521740724160226012827507627891);
    assert(pow_mod_spec(MAIN_GENERATOR as int, 2199023255552, MAIN_PRIME as int) == 23027356669772877248389090475997951526);
    assert(pow_mod_spec(MAIN_GENERATOR as int, 4398046511104, MAIN_PRIME as int) == 58138121265556465467198353860315416106);
    assert(pow_mod_spec(MAIN_GENERATOR as int, 8796093022208, MAIN_PRIME as int) == 165266553723404018475348156398223269877);
    assert(pow_mod_spec(MAIN_GENERATOR as int, 17592186044416, MAIN_PRIME as int) == 261141639789913469346277529426114455260);
    assert(pow_mod_spec(MAIN_GENERATOR as int, 35184372088832, MAIN_PRIME as int) == 58728008449227361815617982044258415329);
    assert(pow_mod_spec(MAIN_GENERATOR as int, 70368744177664, MAIN_PRIME as int) == 37725989879039022500469842541563242074);
    assert(pow_mod_spec(MAIN_GENERATOR as int, 140737488355328, MAIN_PRIME as int) == 60681604994722136887109123241705708294);
    assert(pow_mod_spec(MAIN_GENERATOR as int, 281474976710656, MAIN_PRIME as int) == 141194708474709860713418838910853647399);
    assert(pow_mod_spec(MAIN_GENERATOR as int, 562949953421312, MAIN_PRIME as int) == 114111171465583200206545561993065702547);
    assert(pow_mod_spec(MAIN_GENERATOR as int, 1125899906842624, MAIN_PRIME as int) == 133809604871796689988030087412326146557);
    assert(pow_mod_spec(MAIN_GENERATOR as int, 2251799813685248, MAIN_PRIME as int) == 139778377801951755471378484836047612481);
    assert(pow_mod_spec(MAIN_GENERATOR as int, 4503599627370496, MAIN_PRIME as int) == 268724245828496293570156221921880532962);
    assert(pow_mod_spec(MAIN_GENERATOR as int, 9007199254740992, MAIN_PRIME as int) == 3958032543719356951799974873689414320);
    assert(pow_mod_spec(MAIN_GENERATOR as int, 18014398509481984, MAIN_PRIME as int) == 53059386756353717559522727970609300717);
    assert(pow_mod_spec(MAIN_GENERATOR as int, 36028797018963968, MAIN_PRIME as int) == 164705897179045511576021990306356833063);
    assert(pow_mod_spec(MAIN_GENERATOR as int, 72057594037927936, MAIN_PRIME as int) == 105295318520168687186049693150401624994);
    assert(pow_mod_spec(MAIN_GENERATOR as int, 144115188075855872, MAIN_PRIME as int) == 16699477141478102951009382564178171941);
    assert(pow_mod_spec(MAIN_GENERATOR as int, 288230376151711744, MAIN_PRIME as int) == 149055539229067169652728748735484291821);
    assert(pow_mod_spec(MAIN_GENERATOR as int, 576460752303423488, MAIN_PRIME as int) == 138645589299768798093686386428214378832);
    assert(pow_mod_spec(MAIN_GENERATOR as int, 1152921504606846976, MAIN_PRIME as int) == 131074062203379889953062526448314520318);
    assert(pow_mod_spec(MAIN_GENERATOR as int, 2305843009213693952, MAIN_PRIME as int) == 26536124405033603670713480101053962456);
    assert(pow_mod_spec(MAIN_GENERATOR as int, 4611686018427387904, MAIN_PRIME as int) == 57784280522505321714756156840676764917);
    assert(pow_mod_spec(MAIN_GENERATOR as int, 9223372036854775808, MAIN_PRIME as int) == 7012453248280543647378601745987878829);
    assert(pow_mod_spec(MAIN_GENERATOR as int, 18446744073709551616, MAIN_PRIME as int) == 119309974934634033526503127276303555971);
    assert(pow_mod_spec(MAIN_GENERATOR as int, 36893488147419103232, MAIN_PRIME as int) == 115920883987797986801259308440027594150);
    assert(pow_mod_spec(MAIN_GENERATOR as int, 73786976294838206464, MAIN_PRIME as int) == 149290865943755429783762521900753254994);
    assert(pow_mod_spec(MAIN_GENERATOR as int, 147573952589676412928, MAIN_PRIME as int) == 231142037842266224342672198120388832262);
    assert(pow_mod_spec(MAIN_GENERATOR as int, 295147905179352825856, MAIN_PRIME as int) == 164609129545297704292836920354710862498);
    assert(pow_mod_spec(MAIN_GENERATOR as int, 590295810358705651712, MAIN_PRIME as int) == 50932702601501463798052246008257562581);
    assert(pow_mod_spec(MAIN_GENERATOR as int, 1180591620717411303424, MAIN_PRIME as int) == 87996014433354069326265695207609150526);
    assert(pow_mod_spec(MAIN_GENERATOR as int, 2361183241434822606848, MAIN_PRIME as int) == 30459465645563241462545685926180803515);
    assert(pow_mod_spec(MAIN_GENERATOR as int, 4722366482869645213696, MAIN_PRIME as int) == 230796742234458129108932900195113208666);
    assert(pow_mod_spec(MAIN_GENERATOR as int, 9444732965739290427392, MAIN_PRIME as int) == 57339134353009133810797907793724699763);
    assert(pow_mod_spec(MAIN_GENERATOR as int, 18889465931478580854784, MAIN_PRIME as int) == 71986082510956851263451977148123322035);
    assert(pow_mod_spec(MAIN_GENERATOR as int, 37778931862957161709568, MAIN_PRIME as int) == 47679057791719070864231322410555492847);
    assert(pow_mod_spec(MAIN_GENERATOR as int, 75557863725914323419136, MAIN_PRIME as int) == 165826587459566835239990104129175411136);
    assert(pow_mod_spec(MAIN_GENERATOR as int, 151115727451828646838272, MAIN_PRIME as int) == 87633478589235870927785904175920872344);
    assert(pow_mod_spec(MAIN_GENERATOR as int, 302231454903657293676544, MAIN_PRIME as int) == 175911951539014832173347546270092274198);
    assert(pow_mod_spec(MAIN_GENERATOR as int, 604462909807314587353088, MAIN_PRIME as int) == 168180781047028361987806241322463554771);
    assert(pow_mod_spec(MAIN_GENERATOR as int, 1208925819614629174706176, MAIN_PRIME as int) == 188760366701737051411748298026312469771);
}

/// Square-and-multiply steps towards `g^(2^119)` (part 3 of 3).
proof fn generator_order_2()
    requires
        pow_mod_spec(MAIN_GENERATOR as int, 1208925819614629174706176, MAIN_PRIME as int) == 188760366701737051411748298026312469771,
    ensures
        pow_mod_spec(MAIN_GENERATOR as int, 664613997892457936451903530140172288, MAIN_PRIME as int) == 1,
        pow_mod_spec(MAIN_GENERATOR as int, 332306998946228968225951765070086144, MAIN_PRIME as int) == 270497897142230380135924736767050121216,
{
    assert(pow_mod_spec(MAIN_GENERATOR as int, 2417851639229258349412352, MAIN_PRIME as int) == 137043329739432280743935136466033442567);
    assert(pow_mod_spec(MAIN_GENERATOR as int, 4835703278458516698824704, MAIN_PRIME as int) == 254811542197935531661802877449773277617);
    assert(pow_mod_spec(MAIN_GENERATOR as int, 9671406556917033397649408, MAIN_PRIME as int) == 146121351841646199955613554491793313345);
    assert(pow_mod_spec(MAIN_GENERATOR as int, 19342813113834066795298816, MAIN_PRIME as int) == 202134711252280552281770353669653550211);
    assert(pow_mod_spec(MAIN_GENERATOR as int, 38685626227668133590597632, MAIN_PRIME as int) == 62020643629271613536358612995472649224);
    assert(pow_mod_spec(MAIN_GENERATOR as int, 77371252455336267181195264, MAIN_PRIME as int) == 60955409100920546531994404498493215995);
    assert(pow_mod_spec(MAIN_GENERATOR as int, 154742504910672534362390528, MAIN_PRIME as int) == 267306289615708092041963651785810633313);
    assert(pow_mod_spec(MAIN_GENERATOR as int, 309485009821345068724781056, MAIN_PRIME as int) == 82886710661896431930683110203913025715);
    assert(pow_mod_spec(MAIN_GENERATOR as int, 618970019642690137449562112, MAIN_PRIME as int) == 183672562657124655756044190146949222768);
    assert(pow_mod_spec(MAIN_GENERATOR as int, 1237940039285380274899124224, MAIN_PRIME as int) == 132011392005246224365974131170596379858);
    assert(pow_mod_spec(MAIN_GENERATOR as int, 2475880078570760549798248448, MAIN_PRIME as int) == 70175474737685246412980779337185950443);
    assert(pow_mod_spec(MAIN_GENERATOR as int, 4951760157141521099596496896, MAIN_PRIME as int) == 220997914137524785485614782437485244991);
    assert(pow_mod_spec(MAIN_GENERATOR as int, 9903520314283042199192993792, MAIN_PRIME as int) == 171593735460794207840454921346185543981);
    assert(pow_mod_spec(MAIN_GENERATOR as int, 19807040628566084398385987584, MAIN_PRIME as int) == 71288948178855918325178708028277674438);
    assert(pow_mod_spec(MAIN_GENERATOR as int, 39614081257132168796771975168, MAIN_PRIME as int) == 65925256741735993773732873161688574648);
    assert(pow_mod_spec(MAIN_GENERATOR as int, 79228162514264337593543950336, MAIN_PRIME as int) == 223621218216708547223464078625256957762);
    assert(pow_mod_spec(MAIN_GENERATOR as int, 158456325028528675187087900672, MAIN_PRIME as int) == 70183190447477977100017978035181125195);
    assert(pow_mod_spec(MAIN_GENERATOR as int, 316912650057057350374175801344, MAIN_PRIME as int) == 81205103701858762222647973189173115555);
    assert(pow_mod_spec(MAIN_GENERATOR as int, 633825300114114700748351602688, MAIN_PRIME as int) == 246476146805045146772952495119713591992);
    assert(pow_mod_spec(MAIN_GENERATOR as int, 1267650600228229401496703205376, MAIN_PRIME as int) == 205585349689748417101142707299351452499);
    assert(pow_mod_spec(MAIN_GENERATOR as int, 2535301200456458802993406410752, MAIN_PRIME as int) == 235536536747046009653031169237027907708);
    assert(pow_mod_spec(MAIN_GENERATOR as int, 5070602400912917605986812821504, MAIN_PRIME as int) == 124563061566547205452168207223266849609);
    assert(pow_mod_spec(MAIN_GENERATOR as int, 10141204801825835211973625643008, MAIN_PRIME as int) == 60852861674981758841349565467922926979);
    assert(pow_mod_spec(MAIN_GENERATOR as int, 20282409603651670423947251286016, MAIN_PRIME as int) == 47297075848054312102354453716405586435);
    assert(pow_mod_spec(MAIN_GENERATOR as int, 40564819207303340847894502572032, MAIN_PRIME as int) == 218316119641727656000523521043738064690);
    assert(pow_mod_spec(MAIN_GENERATOR as int, 81129638414606681695789005144064, MAIN_PRIME as int) == 185080982397478044717513752950010250958);
    assert(pow_mod_spec(MAIN_GENERATOR as int, 162259276829213363391578010288128, MAIN_PRIME as int) == 106535815141977674204471003459472633885);
    assert(pow_mod_spec(MAIN_GENERATOR as int, 324518553658426726783156020576256, MAIN_PRIME as int) == 240639785279454729936319549588094844628);
    assert(pow_mod_spec(MAIN_GENERATOR as int, 649037107316853453566312041152512, MAIN_PRIME as int) == 157047144299673000979490264221078274179);
    assert(pow_mod_spec(MAIN_GENERATOR as int, 1298074214633706907132624082305024, MAIN_PRIME as int) == 11068365217297290165464327737828832066);
    assert(pow_mod_spec(MAIN_GENERATOR as int, 2596148429267413814265248164610048, MAIN_PRIME as int) == 178902808384765167578311106676137348214);
    assert(pow_mod_spec(MAIN_GENERATOR as int, 5192296858534827628530496329220096, MAIN_PRIME as int) == 65907963977709178563567092354521124432);
    assert(pow_mod_spec(MAIN_GENERATOR as int, 10384593717069655257060992658440192, MAIN_PRIME as int) == 59478736836296470922896375673044043947);
    assert(pow_mod_spec(MAIN_GENERATOR as int, 20769187434139310514121985316880384, MAIN_PRIME as int) == 16698199167658661640320272194027702370);
    assert(pow_mod_spec(MAIN_GENERATOR as int, 41538374868278621028243970633760768, MAIN_PRIME as int) == 22186728119017901039385635608201850931);
    assert(pow_mod_spec(MAIN_GENERATOR as int, 83076749736557242056487941267521536, MAIN_PRIME as int) == 131076302407280330469229082343774091404);
    assert(pow_mod_spec(MAIN_GENERATOR as int, 166153499473114484112975882535043072, MAIN_PRIME as int) == 259052015163170058651980223774986375587);
    assert(pow_mod_spec(MAIN_GENERATOR as int, 332306998946228968225951765070086144, MAIN_PRIME as int) == 270497897142230380135924736767050121216);
    assert(pow_mod_spec(MAIN_GENERATOR as int, 664613997892457936451903530140172288, MAIN_PRIME as int) == 1);
}


/// The divisors of `407 = 11 · 37` other than 1 are multiples of 11 or 37.
proof fn lemma_divisors_of_407(m: u16, k: u16)
    by (bit_vector)
    requires
        m * k == 407,
        m > 1,
    ensures
        m % 11 == 0 || m % 37 == 0,
{
}


/// `p − 1`, the order of the multiplicative group.
pub open spec fn group_order() -> int {
    MAIN_PRIME as int - 1
}

/// A power of a power congruent to one is congruent to one.
pub proof fn lemma_pow_one_power(a: int, e: nat, k: nat, p: int)
    requires
        p > 1,
        pow(a, e) % p == 1,
    ensures
        pow(a, e * k) % p == 1,
{
    lemma_pow_multiplies(a, e, k);
    lemma_pow_mod_noop(pow(a, e), k, p);
    lemma1_pow(k);
    lemma_small_mod(1, p as nat);
}

/// A factor congruent to one drops out: `a^(e1 + e2) ≡ a^e2` when `a^e1 ≡ 1`.
pub proof fn lemma_pow_split(a: int, e1: nat, e2: nat, p: int)
    requires
        p > 1,
        pow(a, e1) % p == 1,
    ensures
        pow(a, e1 + e2) % p == pow(a, e2) % p,
{
    lemma_pow_adds(a, e1, e2);
    lemma_mul_mod_noop_left(pow(a, e1), pow(a, e2), p);
}

/// With `a^n ≡ 1`, the residue of `a^d` depends on `d mod n` alone.
proof fn lemma_period_mod(a: int, n: nat, d: nat, p: int)
    requires
        p > 1,
        n > 0,
        pow(a, n) % p == 1,
    ensures
        pow(a, d) % p == pow(a, d % n) % p,
{
    lemma_fundamental_div_mod(d as int, n as int);
    let q = d / n;
    lemma_pow_one_power(a, n, q, p);
    lemma_pow_split(a, n * q, d % n, p);
    assert(d == n * q + d % n);
}

/// Exponents of powers congruent to one are closed under the gcd.
proof fn lemma_period_gcd(a: int, x: nat, y: nat, p: int)
    requires
        p > 1,
        pow(a, x) % p == 1,
        pow(a, y) % p == 1,
    ensures
        pow(a, crate::math::spec_gcd(x, y)) % p == 1,
    decreases y,
{
    if y > 0 {
        lemma_period_mod(a, y, x, p);
        lemma_period_gcd(a, y, x % y, p);
    }
}

/// The gcd is positive and divides both arguments.
proof fn lemma_gcd_divides(x: nat, y: nat)
    requires
        x > 0,
    ensures
        crate::math::spec_gcd(x, y) > 0,
        x % crate::math::spec_gcd(x, y) == 0,
        y % crate::math::spec_gcd(x, y) == 0,
    decreases y,
{
    let g = crate::math::spec_gcd(x, y);
    if y == 0 {
        lemma_mod_self_0(x as int);
        lemma_small_mod(0, x);
    } else {
        lemma_gcd_divides(y, x % y);
        lemma_fundamental_div_mod(x as int, y as int);
        lemma_fundamental_div_mod(y as int, g as int);
        let c = (y / g) * (x / y);
        assert(y * (x / y) == g * c) by {
            lemma_mul_is_associative(g as int, (y / g) as int, (x / y) as int);
        }
        lemma_mod_multiples_vanish(c as int, (x % y) as int, g as int);
    }
}

/// A number dividing both `x` and the modulus, where `x` has an inverse
/// `b ≥ 0`, is 1.
proof fn lemma_common_divisor_of_unit(x: int, b: int, g: int, p: int)
    requires
        p > 1,
        g > 0,
        x % g == 0,
        p % g == 0,
        b >= 0,
        (x * b) % p == 1,
    ensures
        g == 1,
{
    lemma_fundamental_div_mod(x * b, p);
    let q = (x * b) / p;
    assert(x * b == p * q + 1);
    lemma_fundamental_div_mod(x, g);
    lemma_fundamental_div_mod(p, g);
    let xg = x / g;
    let pg = p / g;
    assert(x * b == g * (xg * b)) by {
        lemma_mul_is_associative(g, xg, b);
    }
    assert(p * q == g * (pg * q)) by {
        lemma_mul_is_associative(g, pg, q);
    }
    assert(g * (xg * b - pg * q) == 1) by {
        lemma_mul_is_distributive_sub(g, xg * b, pg * q);
    }
    let r = xg * b - pg * q;
    if r <= 0 {
        lemma_mul_inequality(r, 0, g);
        assert(r * g == g * r) by {
            lemma_mul_is_commutative(r, g);
        }
    } else {
        lemma_mul_inequality(1, r, g);
        assert(r * g == g * r) by {
            lemma_mul_is_commutative(r, g);
        }
    }
}

/// An odd number dividing `t · 2^j` divides `t`.
proof fn lemma_odd_peel(m: int, k: int, t: int, j: nat) -> (k2: int)
    requires
        m % 2 == 1,
        m > 0,
        k >= 0,
        m * k == t * pow2(j),
    ensures
        k2 >= 0,
        m * k2 == t,
    decreases j,
{
    if j == 0 {
        lemma2_to64();
        k
    } else {
        lemma_pow2_unfold(j);
        let t2 = t * pow2((j - 1) as nat);
        assert(m * k == 2 * t2) by {
            lemma_mul_is_associative(t, 2, pow2((j - 1) as nat) as int);
            lemma_mul_is_commutative(t, 2);
            lemma_mul_is_associative(2, t, pow2((j - 1) as nat) as int);
        }
        lemma_mul_mod_noop(m, k, 2);
        lemma_mod_multiples_vanish(t2, 0, 2);
        assert((m * k) % 2 == 0);
        assert(((m % 2) * (k % 2)) % 2 == (k % 2) % 2);
        lemma_mod_twice(k, 2);
        assert(k % 2 == 0);
        lemma_fundamental_div_mod(k, 2);
        let h = k / 2;
        assert(m * k == 2 * (m * h)) by {
            lemma_mul_is_associative(m, 2, h);
            lemma_mul_is_commutative(m, 2);
            lemma_mul_is_associative(2, m, h);
        }
        lemma_odd_peel(m, h, t, (j - 1) as nat)
    }
}

/// `2^119`, written out.
proof fn lemma_pow2_119()
    ensures
        pow2(119) == 664613997892457936451903530140172288,
        pow2(118) == 332306998946228968225951765070086144,
{
    lemma2_to64();
    lemma2_to64_rest();
    lemma_pow2_adds(64, 55);
    lemma_pow2_adds(64, 54);
    assert(pow2(64) == 0x10000000000000000);
    assert(pow2(55) == 0x80000000000000);
    assert(pow2(54) == 0x40000000000000);
}

/// A cofactor of `p − 1 = 407 · 2^119` other than 1 is a multiple of 2,
/// 11 or 37.
proof fn lemma_cofactor(m: int, k: int)
    requires
        m > 1,
        k > 0,
        m * k == group_order(),
    ensures
        m % 2 == 0 || m % 11 == 0 || m % 37 == 0,
{
    lemma_pow2_119();
    if m % 2 != 0 {
        assert(group_order() == 407 * pow2(119));
        let k2 = lemma_odd_peel(m, k, 407, 119);
        if k2 == 0 {
            assert(m * k2 == 0);
        }
        assert(m <= 407) by {
            lemma_mul_inequality(1, k2, m);
            lemma_mul_is_commutative(k2, m);
        }
        assert(k2 <= 407) by {
            lemma_mul_inequality(1, m, k2);
        }
        lemma_divisors_of_407(m as u16, k2 as u16);
    }
}

/// 3 has multiplicative order exactly `p − 1`: no smaller positive power
/// of it is congruent to one.
proof fn lemma_witness_order(d: nat)
    requires
        0 < d < group_order(),
    ensures
        pow(3, d) % (MAIN_PRIME as int) != 1,
{
    let p = MAIN_PRIME as int;
    let n = group_order() as nat;
    witness_order_0();
    witness_order_1();
    witness_order_2();
    witness_order_3();
    witness_eleventh_0();
    witness_eleventh_1();
    witness_eleventh_2();
    witness_eleventh_3();
    witness_thirty_seventh_0();
    witness_thirty_seventh_1();
    witness_thirty_seventh_2();
    witness_thirty_seventh_3();
    lemma_pow_mod_spec(3, n, p);
    lemma_pow_mod_spec(3, n / 2, p);
    lemma_pow_mod_spec(3, n / 11, p);
    lemma_pow_mod_spec(3, n / 37, p);
    if pow(3, d) % p == 1 {
        lemma_period_gcd(3, n, d, p);
        lemma_gcd_divides(n, d);
        let g = crate::math::spec_gcd(n, d);
        lemma_fundamental_div_mod(d as int, g as int);
        assert(g <= d) by {
            if d / g < 1 {
                assert(d / g == 0);
            }
            lemma_mul_inequality(1, (d / g) as int, g as int);
            lemma_mul_is_commutative(g as int, (d / g) as int);
        }
        lemma_fundamental_div_mod(n as int, g as int);
        let m = (n / g) as int;
        assert(n == g * m);
        assert(m > 1) by {
            if m <= 1 {
                lemma_mul_inequality(m, 1, g as int);
                lemma_mul_is_commutative(m, g as int);
            }
        }
        lemma_cofactor(m, g as int);
        let q: int = if m % 2 == 0 { 2 } else if m % 11 == 0 { 11 } else { 37 };
        lemma_fundamental_div_mod(m, q);
        let mq = m / q;
        assert(n == q * (g * mq)) by {
            lemma_mul_is_associative(g as int, q, mq);
            lemma_mul_is_commutative(g as int, q);
            lemma_mul_is_associative(q, g as int, mq);
        }
        assert(n as int / q == g * mq) by {
            lemma_div_multiples_vanish(g * mq, q);
        }
        assert(mq >= 0) by {
            lemma_div_pos_is_pos(m, q);
        }
        lemma_pow_one_power(3, g, mq as nat, p);
        assert(false);
    }
}


/// `3^(p − 1) ≡ 1 (mod p)`.
proof fn lemma_witness_full_power()
    ensures
        pow(3, group_order() as nat) % (MAIN_PRIME as int) == 1,
{
    witness_order_0();
    witness_order_1();
    witness_order_2();
    witness_order_3();
    lemma_pow_mod_spec(3, group_order() as nat, MAIN_PRIME as int);
}

/// `3^i · 3^(p − 1 − i) ≡ 1`: each power of 3 below the order has the
/// complementary power as inverse.
proof fn lemma_witness_complement(i: nat)
    requires
        i <= group_order(),
    ensures
        (pow(3, i) * pow(3, (group_order() - i) as nat)) % (MAIN_PRIME as int) == 1,
{
    lemma_witness_full_power();
    lemma_pow_adds(3, i, (group_order() - i) as nat);
}

/// The powers of 3 below `p − 1` are pairwise distinct modulo `p`.
proof fn lemma_witness_powers_distinct(i: nat, j: nat)
    requires
        i < j < group_order(),
    ensures
        pow(3, i) % (MAIN_PRIME as int) != pow(3, j) % (MAIN_PRIME as int),
{
    let p = MAIN_PRIME as int;
    let n = group_order() as nat;
    if pow(3, i) % p == pow(3, j) % p {
        let d = (j - i) as nat;
        let c = (n - i) as nat;
        lemma_witness_complement(i);
        lemma_pow_adds(3, j, c);
        lemma_mul_mod_noop_left(pow(3, j), pow(3, c), p);
        lemma_mul_mod_noop_left(pow(3, i), pow(3, c), p);
        assert(pow(3, j + c) % p == 1);
        lemma_witness_full_power();
        assert(j + c == n + d);
        lemma_pow_split(3, n, d, p);
        lemma_witness_order(d);
    }
}

/// No power of 3 is a multiple of `p`.
proof fn lemma_witness_power_nonzero(i: nat)
    requires
        i < group_order(),
    ensures
        pow(3, i) % (MAIN_PRIME as int) != 0,
{
    let p = MAIN_PRIME as int;
    let c = (group_order() - i) as nat;
    lemma_witness_complement(i);
    lemma_mul_mod_noop_left(pow(3, i), pow(3, c), p);
    if pow(3, i) % p == 0 {
        assert(0 * pow(3, c) == 0);
        lemma_small_mod(0, p as nat);
    }
}

/// Every nonzero residue is a power of 3 with exponent below `p − 1`.
proof fn lemma_witness_covers(x: int)
    requires
        0 < x < MAIN_PRIME,
    ensures
        exists|i: nat| i < group_order() && #[trigger] (pow(3, i) % (MAIN_PRIME as int)) == x,
{
    let p = MAIN_PRIME as int;
    let n = group_order();
    let dom = vstd::set_lib::set_int_range(0, n);
    let f = |i: int| pow(3, i as nat) % p;
    let img = dom.map(f);
    let target = vstd::set_lib::set_int_range(1, p);
    vstd::set_lib::lemma_int_range(0, n);
    vstd::set_lib::lemma_int_range(1, p);
    assert(vstd::relations::injective_on(f, dom)) by {
        assert forall|a: int, b: int| dom.contains(a) && dom.contains(b) && #[trigger] f(a) == #[trigger] f(b) implies a == b by {
            if a < b {
                lemma_witness_powers_distinct(a as nat, b as nat);
            } else if b < a {
                lemma_witness_powers_distinct(b as nat, a as nat);
            }
        }
    }
    vstd::set_lib::lemma_map_size(dom, img, f);
    assert(img.subset_of(target)) by {
        assert forall|y: int| img.contains(y) implies target.contains(y) by {
            let i = choose|i: int| dom.contains(i) && y == f(i);
            lemma_witness_power_nonzero(i as nat);
            lemma_mod_bound(pow(3, i as nat), p);
        }
    }
    vstd::set_lib::lemma_subset_equality(img, target);
    assert(target.contains(x));
    assert(img.contains(x));
    let i = choose|i: int| dom.contains(i) && x == f(i);
    assert(pow(3, i as nat) % p == x);
}

/// Fermat's little theorem for the STARK modulus: `x^(p − 1) ≡ 1 (mod p)`
/// for every `x` that is not a multiple of `p`.
pub proof fn lemma_fermat(x: int)
    requires
        x % (MAIN_PRIME as int) != 0,
    ensures
        pow(x, (MAIN_PRIME - 1) as nat) % (MAIN_PRIME as int) == 1,
{
    let p = MAIN_PRIME as int;
    let n = group_order() as nat;
    let r = x % p;
    lemma_mod_bound(x, p);
    lemma_witness_covers(r);
    let i = choose|i: nat| i < group_order() && #[trigger] (pow(3, i) % p) == r;
    lemma_pow_mod_noop(x, n, p);
    lemma_pow_mod_noop(pow(3, i), n, p);
    lemma_pow_multiplies(3, i, n);
    lemma_witness_full_power();
    lemma_pow_one_power(3, n, i, p);
    lemma_mul_is_commutative(i as int, n as int);
}

/// Every residue that is not a multiple of the STARK modulus has an
/// inverse, and is coprime to the modulus.
pub proof fn lemma_nonzero_is_unit(x: int)
    requires
        x % (MAIN_PRIME as int) != 0,
    ensures
        crate::math::is_unit(x, MAIN_PRIME as int),
        crate::math::spec_gcd((x % (MAIN_PRIME as int)) as nat, MAIN_PRIME as nat) == 1,
{
    let p = MAIN_PRIME as int;
    let n = group_order() as nat;
    let r = x % p;
    lemma_mod_bound(x, p);
    lemma_small_mod(r as nat, p as nat);
    let b = pow(r, (n - 1) as nat);
    lemma_fermat(r);
    lemma_pow_adds(r, 1, (n - 1) as nat);
    lemma_pow1(r);
    assert((r * b) % p == 1);
    assert(crate::math::is_unit(r, p));
    crate::math::lemma_unit_mod(x, p);
    assert(b >= 0) by {
        lemma_pow_positive(r, (n - 1) as nat);
    }
    lemma_gcd_divides(r as nat, p as nat);
    let g = crate::math::spec_gcd(r as nat, p as nat);
    lemma_common_divisor_of_unit(r, b, g as int, p);
}

/// `n` is prime: greater than one, and no number strictly between one and
/// `n` divides it.
pub open spec fn is_prime(n: int) -> bool {
    &&& n > 1
    &&& forall|d: int| 1 < d < n ==> #[trigger] (n % d) != 0
}

/// The STARK modulus `1 + 407 · 2^119` is prime.
pub proof fn lemma_main_prime_is_prime()
    ensures
        is_prime(MAIN_PRIME as int),
{
    let p = MAIN_PRIME as int;
    assert forall|d: int| 1 < d < p implies #[trigger] (p % d) != 0 by {
        if p % d == 0 {
            lemma_small_mod(d as nat, p as nat);
            lemma_fermat(d);
            let n = group_order() as nat;
            let b = pow(d, (n - 1) as nat);
            lemma_pow_adds(d, 1, (n - 1) as nat);
            lemma_pow1(d);
            lemma_pow_positive(d, (n - 1) as nat);
            lemma_mod_self_0(d);
            lemma_common_divisor_of_unit(d, b, d, p);
        }
    }
}

/// The canonical generator of the STARK field has multiplicative order
/// `2^119`: its `2^119`-th power is one, its `2^118`-th power is `−1`, and
/// no smaller positive power is one.
pub proof fn lemma_generator_order()
    ensures
        pow(MAIN_GENERATOR as int, pow2(119)) % (MAIN_PRIME as int) == 1,
        pow(MAIN_GENERATOR as int, pow2(118)) % (MAIN_PRIME as int) == MAIN_PRIME - 1,
        forall|d: nat| 0 < d < pow2(119) ==> #[trigger] pow(MAIN_GENERATOR as int, d) % (MAIN_PRIME as int) != 1,
{
    let p = MAIN_PRIME as int;
    let a = MAIN_GENERATOR as int;
    lemma_pow2_119();
    generator_order_0();
    generator_order_1();
    generator_order_2();
    let n = pow2(119);
    lemma_pow_mod_spec(a, n, p);
    lemma_pow_mod_spec(a, pow2(118), p);
    assert forall|d: nat| 0 < d < pow2(119) implies #[trigger] pow(a, d) % p != 1 by {
        if pow(a, d) % p == 1 {
            lemma_period_gcd(a, n, d, p);
            lemma_gcd_divides(n, d);
            let g = crate::math::spec_gcd(n, d);
            lemma_fundamental_div_mod(d as int, g as int);
            assert(g <= d) by {
                if d / g < 1 {
                    assert(d / g == 0);
                }
                lemma_mul_inequality(1, (d / g) as int, g as int);
                lemma_mul_is_commutative(g as int, (d / g) as int);
            }
            lemma_fundamental_div_mod(n as int, g as int);
            let m = (n / g) as int;
            assert(n == g * m);
            assert(m > 1) by {
                if m <= 1 {
                    lemma_mul_inequality(m, 1, g as int);
                    lemma_mul_is_commutative(m, g as int);
                }
            }
            if m % 2 != 0 {
                assert(m * (g as int) == 1 * pow2(119)) by {
                    lemma_mul_is_commutative(m, g as int);
                }
                let k2 = lemma_odd_peel(m, g as int, 1, 119);
                assert(m <= 1) by {
                    if k2 == 0 {
                        assert(m * k2 == 0);
                    }
                    lemma_mul_inequality(1, k2, m);
                    lemma_mul_is_commutative(k2, m);
                }
            }
            lemma_fundamental_div_mod(m, 2);
            let mq = m / 2;
            assert(n == 2 * (g * mq)) by {
                lemma_mul_is_associative(g as int, 2, mq);
                lemma_mul_is_commutative(g as int, 2);
                lemma_mul_is_associative(2, g as int, mq);
            }
            assert(pow2(118) == g * mq);
            assert(mq >= 0) by {
                lemma_div_pos_is_pos(m, 2);
            }
            lemma_pow_one_power(a, g, mq as nat, p);
            assert(false);
        }
    }
}


/// Distinct residues of the STARK field have invertible differences.
pub proof fn lemma_distinct_points_invertible(ds: Seq<crate::field::FieldElement>)
    requires
        crate::polynomial::distinct_points(ds),
        forall|i: int| 0 <= i < ds.len() ==> (#[trigger] ds[i]).value < MAIN_PRIME,
    ensures
        crate::polynomial::differences_invertible(ds, MAIN_PRIME as nat),
{
    let p = MAIN_PRIME as int;
    assert forall|i: int, j: int| 0 <= i < ds.len() && 0 <= j < ds.len() && i != j implies crate::math::spec_gcd(
        ((ds[i].value - ds[j].value) % p) as nat,
        MAIN_PRIME as nat,
    ) == 1 by {
        let d = ds[i].value - ds[j].value;
        if d % p == 0 {
            lemma_fundamental_div_mod(d, p);
            let q = d / p;
            if q > 0 {
                lemma_mul_inequality(1, q, p);
            } else if q < 0 {
                lemma_mul_inequality(q, -1, p);
            }
            assert(d == 0);
        }
        lemma_nonzero_is_unit(d);
    }
}


/// `primitive_nth_root(n)` has order exactly `n`: for a power of two
/// `n ≤ 2^119`, the `2^119 / n`-th power of the generator raised to `n` is
/// one, and raised to any exponent strictly between zero and `n` is not.
pub proof fn lemma_primitive_root_order(n: nat, k: nat)
    requires
        is_pow2(n as int),
        n <= pow2(119),
    ensures
        pow(pow(MAIN_GENERATOR as int, pow2(119) / n), n) % (MAIN_PRIME as int) == 1,
        0 < k < n ==> pow(pow(MAIN_GENERATOR as int, pow2(119) / n), k) % (MAIN_PRIME as int) != 1,
{
    let g = MAIN_GENERATOR as int;
    is_pow2_equiv(n as int);
    let j = choose|i: nat| pow(2, i) == n;
    lemma_pow2(j);
    assert(pow2(j) == n);
    if j > 119 {
        lemma_pow2_strictly_increases(119, j);
    }
    lemma_pow2_adds(j, (119 - j) as nat);
    let c = pow2((119 - j) as nat);
    assert(pow2(119) == n * c);
    lemma_pow2_pos(j);
    lemma_div_multiples_vanish(c as int, n as int);
    assert(pow2(119) / n == c);
    lemma_generator_order();
    lemma_pow_multiplies(g, c, n);
    lemma_mul_is_commutative(c as int, n as int);
    if 0 < k < n {
        lemma_pow_multiplies(g, c, k);
        lemma_pow2_pos((119 - j) as nat);
        assert(c * k < c * n) by {
            lemma_mul_strict_inequality(k as int, n as int, c as int);
            lemma_mul_is_commutative(k as int, c as int);
            lemma_mul_is_commutative(n as int, c as int);
        }
        assert(c * k > 0) by {
            lemma_mul_strictly_positive(c as int, k as int);
        }
    }
}

/// Every non-zero element of the STARK field times its inverse is one.
pub proof fn lemma_main_inverse_cancels(a: crate::field::FieldElement)
    requires
        a.wf(),
        a.field.p == MAIN_PRIME,
        a.value != 0,
    ensures
        a.mul_spec(a.field.element_of(crate::field::arith::spec_inverse(a.value as nat, a.field.p as nat) as int))
            == a.field.element_of(1),
{
    lemma_small_mod(a.value as nat, MAIN_PRIME as nat);
    lemma_nonzero_is_unit(a.value as int);
    crate::field::laws::lemma_inverse_cancels(a);
}

/// Modulo a prime, every residue that is not zero has an inverse and is
/// coprime to the modulus.
pub proof fn lemma_prime_unit(x: int, p: int)
    requires
        is_prime(p),
        x % p != 0,
    ensures
        crate::math::is_unit(x, p),
        crate::math::spec_gcd((x % p) as nat, p as nat) == 1,
{
    let r = x % p;
    lemma_mod_bound(x, p);
    lemma_gcd_divides(r as nat, p as nat);
    let g = crate::math::spec_gcd(r as nat, p as nat);
    assert(g <= r) by {
        lemma_fundamental_div_mod(r, g as int);
        let q = r / (g as int);
        if q <= 0 {
            lemma_mul_inequality(q, 0, g as int);
            lemma_mul_is_commutative(q, g as int);
        } else {
            lemma_mul_inequality(1, q, g as int);
            lemma_mul_is_commutative(q, g as int);
        }
    }
    if g > 1 {
        assert(p % (g as int) != 0);
    }
    assert(g == 1);
    crate::math::lemma_xgcd_bezout(r as nat, p as nat);
    crate::math::lemma_xgcd_gcd(r as nat, p as nat);
    let c = crate::math::spec_xgcd(r as nat, p as nat);
    assert(r * c.0 == p * (-c.1) + 1) by (nonlinear_arith)
        requires
            c.0 * r + c.1 * p == 1,
    ;
    lemma_mod_multiples_vanish(-c.1, 1, p);
    lemma_small_mod(1, p as nat);
    assert((r * c.0) % p == 1);
    crate::math::lemma_unit_mod(x, p);
}

/// Modulo a prime, every non-zero element times its inverse is one.
pub proof fn lemma_prime_inverse_cancels(a: crate::field::FieldElement)
    requires
        is_prime(a.field.p as int),
        a.wf(),
        a.value != 0,
    ensures
        a.mul_spec(a.field.element_of(crate::field::arith::spec_inverse(a.value as nat, a.field.p as nat) as int))
            == a.field.element_of(1),
{
    lemma_small_mod(a.value as nat, a.field.p as nat);
    lemma_prime_unit(a.value as int, a.field.p as int);
    crate::field::laws::lemma_inverse_cancels(a);
}

} // verus!
